//! A component's signature: its name and the names of its ports.

use crate::model::InfoModel;
use crate::names::{copy_names, names_view, same_name};
use vstd::prelude::*;

verus! {

/// A name with ordered input and output names. It serves as a component's
/// signature and, in a component's body, as one statement: an instance of the
/// named component wired to the named signals, or an assignment.
#[derive(Debug, Clone)]
pub struct CompInfo {
    pub name: String,
    pub inputs: Vec<String>,
    pub outputs: Vec<String>,
}

/// Whether no name occurs twice in `names`.
pub open spec fn spec_distinct(names: Seq<Seq<char>>) -> bool {
    forall|i: int, j: int| 0 <= i < j < names.len() ==> names[i] != names[j]
}

impl View for CompInfo {
    type V = InfoModel;

    open spec fn view(&self) -> InfoModel {
        InfoModel {
            name: self.name@,
            inputs: names_view(self.inputs@),
            outputs: names_view(self.outputs@),
        }
    }
}

impl InfoModel {
    /// Whether the port names are unique, inputs and outputs taken together.
    pub open spec fn ports_distinct(self) -> bool {
        spec_distinct(self.inputs + self.outputs)
    }

    /// Whether `port` is the first port, inputs before outputs, that bears
    /// the name of an earlier port.
    pub open spec fn first_duplicate(self, port: DuplicatePort) -> bool {
        match port {
            DuplicatePort::Input(j) => j < self.inputs.len() && spec_distinct(
                self.inputs.take(j as int),
            ) && self.inputs.take(j as int).contains(self.inputs[j as int]),
            DuplicatePort::Output(j) => j < self.outputs.len() && spec_distinct(
                self.inputs + self.outputs.take(j as int),
            ) && (self.inputs + self.outputs.take(j as int)).contains(self.outputs[j as int]),
        }
    }
}

/// The position of the first port of a signature that bears a name used by
/// an earlier port.
#[derive(Debug, Copy, Clone, PartialEq, Eq, Structural)]
pub enum DuplicatePort {
    /// The input at this position repeats an earlier input.
    Input(usize),
    /// The output at this position repeats an input or an earlier output.
    Output(usize),
}

impl CompInfo {
    pub fn new(name: String, inputs: Vec<String>, outputs: Vec<String>) -> (r: Self)
        ensures
            r.name == name,
            r.inputs == inputs,
            r.outputs == outputs,
    {
        CompInfo { name, inputs, outputs }
    }

    /// A copy of the signature.
    pub fn duplicate(&self) -> (r: Self)
        ensures
            r@ == self@,
    {
        CompInfo {
            name: self.name.clone(),
            inputs: copy_names(&self.inputs),
            outputs: copy_names(&self.outputs),
        }
    }

    /// Looks for a port name that is used twice, inputs first. Returns the
    /// first port that repeats an earlier one, and `None` exactly when all
    /// port names are distinct.
    pub fn find_duplicate_port(&self) -> (r: Option<DuplicatePort>)
        ensures
            r is None <==> self@.ports_distinct(),
            r is Some ==> self@.first_duplicate(r->0),
    {
        let ghost ins = self@.inputs;
        let ghost outs = self@.outputs;
        assert(ins.len() == self.inputs@.len() && outs.len() == self.outputs@.len());
        assert(forall|k: int| 0 <= k < ins.len() ==> #[trigger] ins[k] == self.inputs@[k]@);
        assert(forall|k: int| 0 <= k < outs.len() ==> #[trigger] outs[k] == self.outputs@[k]@);
        let mut j: usize = 0;
        while j < self.inputs.len()
            invariant
                j <= self.inputs.len(),
                ins == self@.inputs,
                ins.len() == self.inputs@.len(),
                forall|k: int| 0 <= k < ins.len() ==> #[trigger] ins[k] == self.inputs@[k]@,
                spec_distinct(ins.take(j as int)),
                outs == self@.outputs,
            decreases self.inputs.len() - j,
        {
            let mut i: usize = 0;
            while i < j
                invariant
                    i <= j < self.inputs.len(),
                    ins == self@.inputs,
                    ins.len() == self.inputs@.len(),
                    forall|k: int| 0 <= k < ins.len() ==> #[trigger] ins[k] == self.inputs@[k]@,
                ins.len() == self.inputs@.len(),
                forall|k: int| 0 <= k < ins.len() ==> #[trigger] ins[k] == self.inputs@[k]@,
                    forall|k: int| 0 <= k < i ==> ins[k] != ins[j as int],
                    spec_distinct(ins.take(j as int)),
                    outs == self@.outputs,
                decreases j - i,
            {
                if same_name(self.inputs[i].as_str(), self.inputs[j].as_str()) {
                    assert(ins.take(j as int)[i as int] == ins[j as int]);
                    assert(!spec_distinct(ins + outs)) by {
                        assert((ins + outs)[i as int] == (ins + outs)[j as int]);
                    }
                    return Some(DuplicatePort::Input(j));
                }
                i += 1;
            }
            assert(spec_distinct(ins.take(j + 1))) by {
                let next = ins.take(j + 1);
                let prev = ins.take(j as int);
                assert forall|a: int, b: int| 0 <= a < b < next.len() implies next[a] != next[b] by {
                    if b < j {
                        assert(prev[a] != prev[b]);
                    }
                }
            }
            j += 1;
        }
        assert(ins.take(j as int) =~= ins);
        assert(ins + outs.take(0) =~= ins);
        let mut j: usize = 0;
        while j < self.outputs.len()
            invariant
                j <= self.outputs.len(),
                ins == self@.inputs,
                ins.len() == self.inputs@.len(),
                forall|k: int| 0 <= k < ins.len() ==> #[trigger] ins[k] == self.inputs@[k]@,
                outs == self@.outputs,
                outs.len() == self.outputs@.len(),
                forall|k: int| 0 <= k < outs.len() ==> #[trigger] outs[k] == self.outputs@[k]@,
                spec_distinct(ins + outs.take(j as int)),
            decreases self.outputs.len() - j,
        {
            let ghost seen = ins + outs.take(j as int);
            let mut i: usize = 0;
            while i < self.inputs.len()
                invariant
                    i <= self.inputs.len(),
                    j < self.outputs.len(),
                    ins == self@.inputs,
                    ins.len() == self.inputs@.len(),
                    forall|k: int| 0 <= k < ins.len() ==> #[trigger] ins[k] == self.inputs@[k]@,
                ins.len() == self.inputs@.len(),
                forall|k: int| 0 <= k < ins.len() ==> #[trigger] ins[k] == self.inputs@[k]@,
                    outs == self@.outputs,
                    outs.len() == self.outputs@.len(),
                    forall|k: int| 0 <= k < outs.len() ==> #[trigger] outs[k] == self.outputs@[k]@,
                outs.len() == self.outputs@.len(),
                forall|k: int| 0 <= k < outs.len() ==> #[trigger] outs[k] == self.outputs@[k]@,
                    forall|k: int| 0 <= k < i ==> ins[k] != outs[j as int],
                    seen == ins + outs.take(j as int),
                    spec_distinct(seen),
                decreases self.inputs.len() - i,
            {
                if same_name(self.inputs[i].as_str(), self.outputs[j].as_str()) {
                    assert(seen[i as int] == outs[j as int]);
                    assert(!spec_distinct(ins + outs)) by {
                        assert((ins + outs)[i as int] == (ins + outs)[ins.len() + j]);
                    }
                    return Some(DuplicatePort::Output(j));
                }
                i += 1;
            }
            let mut i: usize = 0;
            while i < j
                invariant
                    i <= j < self.outputs.len(),
                    ins == self@.inputs,
                    ins.len() == self.inputs@.len(),
                    forall|k: int| 0 <= k < ins.len() ==> #[trigger] ins[k] == self.inputs@[k]@,
                ins.len() == self.inputs@.len(),
                forall|k: int| 0 <= k < ins.len() ==> #[trigger] ins[k] == self.inputs@[k]@,
                    outs == self@.outputs,
                    outs.len() == self.outputs@.len(),
                    forall|k: int| 0 <= k < outs.len() ==> #[trigger] outs[k] == self.outputs@[k]@,
                outs.len() == self.outputs@.len(),
                forall|k: int| 0 <= k < outs.len() ==> #[trigger] outs[k] == self.outputs@[k]@,
                    forall|k: int| 0 <= k < i ==> outs[k] != outs[j as int],
                    seen == ins + outs.take(j as int),
                    spec_distinct(seen),
                decreases j - i,
            {
                if same_name(self.outputs[i].as_str(), self.outputs[j].as_str()) {
                    assert(seen[ins.len() + i] == outs[j as int]);
                    assert(!spec_distinct(ins + outs)) by {
                        assert((ins + outs)[ins.len() + i] == (ins + outs)[ins.len() + j]);
                    }
                    return Some(DuplicatePort::Output(j));
                }
                i += 1;
            }
            assert(spec_distinct(ins + outs.take(j + 1))) by {
                let next = ins + outs.take(j + 1);
                assert forall|a: int, b: int| 0 <= a < b < next.len() implies next[a] != next[b] by {
                    assert(next[a] == seen[a]);
                    if b < seen.len() {
                        assert(next[b] == seen[b]);
                    } else {
                        assert(next[b] == outs[j as int]);
                        if a < ins.len() {
                            assert(seen[a] == ins[a]);
                        } else {
                            assert(seen[a] == outs[a - ins.len()]);
                        }
                    }
                }
            }
            j += 1;
        }
        assert(outs.take(j as int) =~= outs);
        None
    }

    /// Whether all port names are distinct, inputs and outputs taken
    /// together.
    pub fn verify(&self) -> (ok: bool)
        ensures
            ok == self@.ports_distinct(),
    {
        self.find_duplicate_port().is_none()
    }
}

} // verus!
