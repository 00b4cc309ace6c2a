//! The mathematical model of components and networks, and of one tick.
//!
//! A network is a sequence of slots. Slot 0 is the network's own boundary,
//! seen from inside: its outputs are the network's inputs and its inputs are
//! the network's outputs. Every other slot holds a component with the values
//! last delivered to its inputs and last computed at its outputs.

use crate::bit::{spec_bits_of_u8, spec_u8_of_bits, Bit};
use crate::stream::{RcBufRead, RcWrite, ReadOutcome};
use crate::names::spec_numbered_names;
use vstd::prelude::*;

verus! {

/// The input pin `input_id` of the slot `comp_id`: where a value is delivered.
#[derive(Debug, Copy, Clone)]
pub struct Index {
    pub comp_id: usize,
    pub input_id: usize,
}

/// A component's name and the names of its ports.
pub struct InfoModel {
    pub name: Seq<char>,
    pub inputs: Seq<Seq<char>>,
    pub outputs: Seq<Seq<char>>,
}

/// The state of an input bridge.
pub struct StdinModel {
    pub last_clk: Bit,
    pub last_out: Seq<Bit>,
    pub eof: Bit,
    pub source: Option<RcBufRead>,
}

/// The state of an output bridge.
pub struct StdoutModel {
    pub last_clk: Bit,
    pub sink: Option<RcWrite>,
}

/// A component: one of the four primitives, or a network of components.
pub enum ComponentModel {
    Nand { num_inputs: nat },
    ConstantBit,
    Stdin(StdinModel),
    Stdout(StdoutModel),
    Network(NetModel),
}

/// One slot of a network.
pub struct SlotModel {
    pub comp: ComponentModel,
    pub input: Seq<Bit>,
    pub output: Seq<Bit>,
    pub connections: Seq<Seq<Index>>,
    pub output_changed: bool,
}

/// A network: its slots, for each output pin of each slot the input pins it
/// feeds, and for each slot whether it is due for evaluation.
pub struct NetModel {
    pub info: InfoModel,
    pub slots: Seq<SlotModel>,
    pub connections: Seq<Seq<Seq<Index>>>,
    pub dirty: Seq<bool>,
}

/// `n` unknown bits.
pub open spec fn spec_unknown(n: nat) -> Seq<Bit> {
    Seq::new(n, |i: int| Bit::X)
}

/// The output of a NAND gate: high if any input is low; else unknown if any
/// input is unknown; else low.
pub open spec fn spec_nand(input: Seq<Bit>) -> Bit {
    if input.contains(Bit::L) {
        Bit::H
    } else if input.contains(Bit::X) {
        Bit::X
    } else {
        Bit::L
    }
}

/// What the constant source puts out.
pub open spec fn spec_constant_output() -> Seq<Bit> {
    seq![Bit::L, Bit::H, Bit::X]
}

impl StdinModel {
    pub open spec fn wf(self) -> bool {
        self.last_out.len() == 8
    }

    /// Whether a clock value of `clk` is a rising edge.
    pub open spec fn rising(self, clk: Bit) -> bool {
        self.last_clk == Bit::L && clk == Bit::H
    }

    /// The state after an attempt to read gave `r`.
    pub open spec fn after_read(self, r: ReadOutcome) -> StdinModel {
        match r {
            ReadOutcome::Byte(b) => StdinModel {
                last_out: spec_bits_of_u8(b),
                eof: Bit::L,
                ..self
            },
            ReadOutcome::End => StdinModel { last_out: spec_unknown(8), eof: Bit::H, ..self },
            ReadOutcome::Busy => StdinModel { last_out: spec_unknown(8), eof: Bit::L, ..self },
        }
    }

    /// The state after a tick with the clock at `clk`, where `r` is what the
    /// read gave if this tick made one.
    pub open spec fn step(self, clk: Bit, r: ReadOutcome) -> StdinModel {
        let s = if self.rising(clk) {
            self.after_read(r)
        } else {
            self
        };
        StdinModel { last_clk: clk, ..s }
    }

    /// The end-of-stream flag, then the eight data bits.
    pub open spec fn output(self) -> Seq<Bit> {
        seq![self.eof] + self.last_out
    }
}

impl StdoutModel {
    /// Whether a clock value of `clk` is a rising edge.
    pub open spec fn rising(self, clk: Bit) -> bool {
        self.last_clk == Bit::L && clk == Bit::H
    }

    /// The byte that a tick with `input` writes, if it writes one: on a
    /// rising edge of the clock, the byte on the eight data lines.
    pub open spec fn written(self, input: Seq<Bit>) -> Option<u8> {
        if self.rising(input[0]) {
            Some(spec_u8_of_bits(input.skip(1)) as u8)
        } else {
            None
        }
    }

    /// The state after a tick with the clock at `clk`.
    pub open spec fn step(self, clk: Bit) -> StdoutModel {
        StdoutModel { last_clk: clk, ..self }
    }
}

impl ComponentModel {
    pub open spec fn num_inputs(self) -> nat {
        match self {
            ComponentModel::Nand { num_inputs } => num_inputs,
            ComponentModel::ConstantBit => 0,
            ComponentModel::Stdin(_) => 1,
            ComponentModel::Stdout(_) => 9,
            ComponentModel::Network(n) => n.num_inputs(),
        }
    }

    pub open spec fn num_outputs(self) -> nat {
        match self {
            ComponentModel::Nand { .. } => 1,
            ComponentModel::ConstantBit => 3,
            ComponentModel::Stdin(_) => 9,
            ComponentModel::Stdout(_) => 0,
            ComponentModel::Network(n) => n.num_outputs(),
        }
    }

    /// Whether the component is to be evaluated again on the next tick even
    /// if none of its inputs changes: a network is, a primitive is not.
    pub open spec fn needs_update(self) -> bool {
        self is Network
    }

    pub open spec fn wf(self) -> bool
        decreases self,
    {
        match self {
            ComponentModel::Stdin(s) => s.wf(),
            ComponentModel::Network(n) => n.wf(),
            _ => true,
        }
    }

    /// Whether a tick with `input` can take the component from `self` to
    /// `post` with the output `out`. For all but the input bridge exactly one
    /// `post` and `out` qualify; for the input bridge, one for each outcome of
    /// the read.
    pub open spec fn steps_to(self, input: Seq<Bit>, post: ComponentModel, out: Seq<Bit>) -> bool
        decreases self, 0nat,
    {
        match self {
            ComponentModel::Nand { .. } => post == self && out == seq![spec_nand(input)],
            ComponentModel::ConstantBit => post == self && out == spec_constant_output(),
            ComponentModel::Stdin(s) => exists|r: ReadOutcome|
                post == ComponentModel::Stdin(#[trigger] s.step(input[0], r)) && out == s.step(
                    input[0],
                    r,
                ).output(),
            ComponentModel::Stdout(s) => post == ComponentModel::Stdout(s.step(input[0])) && out
                == Seq::<Bit>::empty(),
            ComponentModel::Network(n) => post is Network && n.steps_to(
                input,
                post->Network_0,
                out,
            ),
        }
    }
}

impl SlotModel {
    /// The slot with `v` at its input pin `pin`.
    pub open spec fn with_input(self, pin: int, v: Bit) -> SlotModel {
        SlotModel { input: self.input.update(pin, v), ..self }
    }
}

impl NetModel {
    pub open spec fn num_inputs(self) -> nat {
        self.info.inputs.len()
    }

    pub open spec fn num_outputs(self) -> nat {
        self.info.outputs.len()
    }

    /// The values at the network's inputs, as last committed.
    pub open spec fn input(self) -> Seq<Bit> {
        self.slots[0].output
    }

    /// The values at the network's outputs.
    pub open spec fn output(self) -> Seq<Bit> {
        self.slots[0].input
    }

    /// Whether `t` is an input pin of one of the slots.
    pub open spec fn valid_target(self, t: Index) -> bool {
        t.comp_id < self.slots.len() && t.input_id < self.slots[t.comp_id as int].input.len()
    }

    /// The slots, the fan-out lists and the dirty flags agree in number; the
    /// boundary has the ports that the signature names, inside out; every
    /// other slot has the ports of its component; every output pin has a
    /// fan-out list, and every entry of one is an input pin of a slot.
    pub open spec fn wf(self) -> bool
        decreases self,
    {
        &&& self.slots.len() >= 1
        &&& self.connections.len() == self.slots.len()
        &&& self.dirty.len() == self.slots.len()
        &&& self.slots[0].input.len() == self.info.outputs.len()
        &&& self.slots[0].output.len() == self.info.inputs.len()
        &&& forall|i: int|
            1 <= i < self.slots.len() ==> {
                &&& (#[trigger] self.slots[i]).comp.wf()
                &&& self.slots[i].input.len() == self.slots[i].comp.num_inputs()
                &&& self.slots[i].output.len() == self.slots[i].comp.num_outputs()
            }
        &&& forall|i: int|
            0 <= i < self.slots.len() ==> (#[trigger] self.connections[i]).len()
                == self.slots[i].output.len()
        &&& forall|i: int, o: int, k: int|
            0 <= i < self.connections.len() && 0 <= o < self.connections[i].len() && 0 <= k
                < self.connections[i][o].len() ==> self.valid_target(
                #[trigger] self.connections[i][o][k],
            )
    }

    /// The network with `s` in place of slot `i`.
    pub open spec fn with_slot(self, i: int, s: SlotModel) -> NetModel {
        NetModel { slots: self.slots.update(i, s), ..self }
    }

    /// The network after `v` is delivered to the input pin `t`: where the pin
    /// held another value, it now holds `v` and its slot is dirty.
    pub open spec fn deliver(self, t: Index, v: Bit) -> NetModel {
        let c = t.comp_id as int;
        let p = t.input_id as int;
        if self.slots[c].input[p] != v {
            NetModel {
                slots: self.slots.update(c, self.slots[c].with_input(p, v)),
                dirty: self.dirty.update(c, true),
                ..self
            }
        } else {
            self
        }
    }

    /// The network after `v` is delivered to each of `targets`, in order.
    pub open spec fn deliver_all(self, targets: Seq<Index>, v: Bit) -> NetModel
        decreases targets.len(),
    {
        if targets.len() == 0 {
            self
        } else {
            self.deliver_all(targets.drop_last(), v).deliver(targets.last(), v)
        }
    }

    /// The network after the first `n` output pins of slot `c` are delivered
    /// along their fan-out lists.
    pub open spec fn propagate_ports(self, c: int, n: nat) -> NetModel
        decreases n,
    {
        if n == 0 {
            self
        } else {
            self.propagate_ports(c, (n - 1) as nat).deliver_all(
                self.connections[c][n - 1],
                self.slots[c].output[n - 1],
            )
        }
    }

    /// The network after the outputs of slot `c` are delivered.
    pub open spec fn propagate(self, c: int) -> NetModel {
        self.propagate_ports(c, self.connections[c].len())
    }

    /// The network after the outputs of those of the slots 1 to `n - 1` are
    /// delivered whose output changed, in ascending order.
    pub open spec fn propagate_changed(self, n: nat) -> NetModel
        decreases n,
    {
        if n <= 1 {
            self
        } else {
            let before = self.propagate_changed((n - 1) as nat);
            if self.slots[n - 1].output_changed {
                before.propagate(n - 1)
            } else {
                before
            }
        }
    }

    /// The network after the third phase of a tick.
    pub open spec fn propagate_all(self) -> NetModel {
        self.propagate_changed(self.slots.len())
    }

    /// The network after the first phase of a tick: if `input` is what was
    /// committed before, only the boundary's change flag is cleared;
    /// otherwise `input` is committed and delivered.
    pub open spec fn commit_input(self, input: Seq<Bit>) -> NetModel {
        if self.slots[0].output == input {
            self.with_slot(0, SlotModel { output_changed: false, ..self.slots[0] })
        } else {
            self.with_slot(0, SlotModel { output: input, ..self.slots[0] }).propagate(0)
        }
    }

    /// Whether evaluating the slot holding the component `comp` can take
    /// it from `before` to `after`: the component makes a tick on the slot's
    /// inputs, and the slot records the new output and whether it differs
    /// from the old one.
    pub open spec fn slot_evaluated(self, i: int, before: SlotModel, after: SlotModel) -> bool
        decreases self, 0nat,
    {
        &&& 1 <= i < self.slots.len()
        &&& self.slots[i].comp.steps_to(before.input, after.comp, after.output)
        &&& after.input == before.input
        &&& after.connections == before.connections
        &&& after.output_changed == (after.output != before.output)
    }

    /// Whether the second phase of a tick can take the network from `pre` to
    /// `mid`, `pre` being `self` after the first phase: each dirty slot but
    /// the boundary is evaluated, and is then dirty again only if its
    /// component asks to be evaluated on every tick; the others are left
    /// alone.
    pub open spec fn evaluated(self, pre: NetModel, mid: NetModel) -> bool
        decreases self, 1nat,
    {
        &&& mid.info == pre.info
        &&& mid.connections == pre.connections
        &&& mid.slots.len() == pre.slots.len()
        &&& mid.dirty.len() == pre.dirty.len()
        &&& mid.slots[0] == pre.slots[0]
        &&& mid.dirty[0] == pre.dirty[0]
        &&& forall|i: int|
            1 <= i < self.slots.len() ==> if pre.dirty[i] {
                &&& self.slot_evaluated(i, pre.slots[i], #[trigger] mid.slots[i])
                &&& mid.dirty[i] == mid.slots[i].comp.needs_update()
            } else {
                &&& mid.slots[i] == pre.slots[i]
                &&& mid.dirty[i] == pre.dirty[i]
            }
    }

    /// Whether a tick with `input` can take the network from `self` to `post`
    /// with the output `out`: the input is committed, the dirty slots are
    /// evaluated on the values they held before this tick, the changed
    /// outputs are delivered for the next tick, and the output is what the
    /// boundary then holds.
    pub open spec fn steps_to(self, input: Seq<Bit>, post: NetModel, out: Seq<Bit>) -> bool
        decreases self, 2nat,
    {
        exists|mid: NetModel|
            {
                &&& self.evaluated(self.commit_input(input), mid)
                &&& post == #[trigger] mid.propagate_all()
                &&& out == post.output()
            }
    }
}

impl NetModel {
    /// Whether `other` differs from `self` at most in the values held at
    /// input pins and in the dirty flags.
    pub open spec fn same_frame(self, other: NetModel) -> bool {
        &&& other.info == self.info
        &&& other.connections == self.connections
        &&& other.slots.len() == self.slots.len()
        &&& other.dirty.len() == self.dirty.len()
        &&& forall|i: int|
            0 <= i < self.slots.len() ==> {
                &&& (#[trigger] other.slots[i]).comp == self.slots[i].comp
                &&& other.slots[i].output == self.slots[i].output
                &&& other.slots[i].connections == self.slots[i].connections
                &&& other.slots[i].output_changed == self.slots[i].output_changed
                &&& other.slots[i].input.len() == self.slots[i].input.len()
            }
    }

    /// A network that differs from a well-formed one only in pin values and
    /// dirty flags is well-formed.
    pub proof fn lemma_frame_wf(self, other: NetModel)
        requires
            self.wf(),
            self.same_frame(other),
        ensures
            other.wf(),
    {
        assert forall|i: int, o: int, k: int|
            0 <= i < other.connections.len() && 0 <= o < other.connections[i].len() && 0 <= k
                < other.connections[i][o].len() implies other.valid_target(
            #[trigger] other.connections[i][o][k],
        ) by {
            let t = self.connections[i][o][k];
            assert(self.valid_target(t));
            assert(other.slots[t.comp_id as int].input.len() == self.slots[t.comp_id as int].input.len());
        }
        assert forall|i: int| 1 <= i < other.slots.len() implies {
            &&& (#[trigger] other.slots[i]).comp.wf()
            &&& other.slots[i].input.len() == other.slots[i].comp.num_inputs()
            &&& other.slots[i].output.len() == other.slots[i].comp.num_outputs()
        } by {
            assert(self.slots[i].comp.wf());
        }
        assert forall|i: int| 0 <= i < other.slots.len() implies (#[trigger] other.connections[i]).len()
            == other.slots[i].output.len() by {
            assert(self.connections[i].len() == self.slots[i].output.len());
            assert(other.slots[i].output == self.slots[i].output);
        }
        assert(other.slots[0].input.len() == self.slots[0].input.len());
        assert(other.slots[0].output == self.slots[0].output);
    }

    /// The frame relation is transitive.
    pub proof fn lemma_frame_trans(self, b: NetModel, c: NetModel)
        requires
            self.same_frame(b),
            b.same_frame(c),
        ensures
            self.same_frame(c),
    {
        assert forall|i: int| 0 <= i < self.slots.len() implies {
            &&& (#[trigger] c.slots[i]).comp == self.slots[i].comp
            &&& c.slots[i].output == self.slots[i].output
            &&& c.slots[i].connections == self.slots[i].connections
            &&& c.slots[i].output_changed == self.slots[i].output_changed
            &&& c.slots[i].input.len() == self.slots[i].input.len()
        } by {
            assert(b.slots[i].comp == self.slots[i].comp);
        }
    }

    /// A delivery changes pin values and dirty flags only.
    pub proof fn lemma_deliver_frame(self, t: Index, v: Bit)
        requires
            self.valid_target(t),
            self.dirty.len() == self.slots.len(),
        ensures
            self.same_frame(self.deliver(t, v)),
    {
    }

    /// Deliveries change pin values and dirty flags only.
    pub proof fn lemma_deliver_all_frame(self, targets: Seq<Index>, v: Bit)
        requires
            forall|k: int| 0 <= k < targets.len() ==> self.valid_target(#[trigger] targets[k]),
            self.dirty.len() == self.slots.len(),
        ensures
            self.same_frame(self.deliver_all(targets, v)),
        decreases targets.len(),
    {
        if targets.len() > 0 {
            let head = targets.drop_last();
            assert forall|k: int| 0 <= k < head.len() implies self.valid_target(#[trigger] head[k]) by {
                assert(head[k] == targets[k]);
            }
            self.lemma_deliver_all_frame(head, v);
            let mid = self.deliver_all(head, v);
            let t = targets.last();
            assert(self.valid_target(t));
            assert(mid.slots[t.comp_id as int].input.len() == self.slots[t.comp_id as int].input.len());
            mid.lemma_deliver_frame(t, v);
            self.lemma_frame_trans(mid, mid.deliver(t, v));
        }
    }

    /// Delivering a slot's outputs changes pin values and dirty flags only.
    pub proof fn lemma_propagate_ports_frame(self, c: int, n: nat)
        requires
            self.wf(),
            0 <= c < self.slots.len(),
            n <= self.connections[c].len(),
        ensures
            self.same_frame(self.propagate_ports(c, n)),
        decreases n,
    {
        if n > 0 {
            self.lemma_propagate_ports_frame(c, (n - 1) as nat);
            let mid = self.propagate_ports(c, (n - 1) as nat);
            let targets = self.connections[c][n - 1];
            assert forall|k: int| 0 <= k < targets.len() implies mid.valid_target(#[trigger] targets[k]) by {
                let t = self.connections[c][n - 1][k];
                assert(self.valid_target(t));
                assert(mid.slots[t.comp_id as int].input.len() == self.slots[t.comp_id as int].input.len());
            }
            mid.lemma_deliver_all_frame(targets, self.slots[c].output[n - 1]);
            self.lemma_frame_trans(mid, self.propagate_ports(c, n));
        }
    }

    /// The third phase of a tick changes pin values and dirty flags only.
    pub proof fn lemma_propagate_changed_frame(self, n: nat)
        requires
            self.wf(),
            n <= self.slots.len(),
        ensures
            self.same_frame(self.propagate_changed(n)),
            self.propagate_changed(n).wf(),
        decreases n,
    {
        if n > 1 {
            self.lemma_propagate_changed_frame((n - 1) as nat);
            let before = self.propagate_changed((n - 1) as nat);
            if self.slots[n - 1].output_changed {
                before.lemma_propagate_ports_frame(n - 1, before.connections[n - 1].len());
                self.lemma_frame_trans(before, before.propagate(n - 1));
            }
            self.lemma_frame_wf(self.propagate_changed(n));
        }
    }
}

/// For each of `n` pins, a fan-out list that holds the pin of the same number
/// of the slot `slot`.
pub open spec fn spec_straight_fanout(slot: usize, n: nat) -> Seq<Seq<Index>> {
    Seq::new(n, |i: int| seq![Index { comp_id: slot, input_id: i as usize }])
}

impl ComponentModel {
    /// The name of the component's kind.
    pub open spec fn name(self) -> Seq<char> {
        match self {
            ComponentModel::Nand { .. } => "Nand"@,
            ComponentModel::ConstantBit => "ConstantBit"@,
            ComponentModel::Stdin(_) => "Stdin"@,
            ComponentModel::Stdout(_) => "Stdout"@,
            ComponentModel::Network(n) => n.info.name,
        }
    }

    /// The names of the input ports.
    pub open spec fn input_names(self) -> Seq<Seq<char>> {
        match self {
            ComponentModel::Nand { num_inputs } => spec_numbered_names("i"@, num_inputs),
            ComponentModel::ConstantBit => Seq::empty(),
            ComponentModel::Stdin(_) => seq!["clk"@],
            ComponentModel::Stdout(_) => seq![
                "clk"@,
                "x7"@,
                "x6"@,
                "x5"@,
                "x4"@,
                "x3"@,
                "x2"@,
                "x1"@,
                "x0"@,
            ],
            ComponentModel::Network(n) => n.info.inputs,
        }
    }

    /// The names of the output ports.
    pub open spec fn output_names(self) -> Seq<Seq<char>> {
        match self {
            ComponentModel::Nand { .. } => spec_numbered_names("o"@, 1),
            ComponentModel::ConstantBit => seq!["o0"@, "o1"@, "oX"@],
            ComponentModel::Stdin(_) => seq![
                "EOF"@,
                "x7"@,
                "x6"@,
                "x5"@,
                "x4"@,
                "x3"@,
                "x2"@,
                "x1"@,
                "x0"@,
            ],
            ComponentModel::Stdout(_) => Seq::empty(),
            ComponentModel::Network(n) => n.info.outputs,
        }
    }

    /// The values at the input pins of every slot, for a network.
    pub open spec fn internal_inputs(self) -> Option<Seq<Seq<Bit>>> {
        match self {
            ComponentModel::Network(n) => Some(Seq::new(n.slots.len(), |i: int| n.slots[i].input)),
            _ => None,
        }
    }

    /// The network made of this component alone, each port of the network
    /// wired to the port of the same number of the component.
    pub open spec fn wrapped(self) -> NetModel {
        let ins = self.num_inputs();
        let outs = self.num_outputs();
        NetModel::assemble(
            InfoModel {
                name: "w"@ + self.name(),
                inputs: self.input_names(),
                outputs: self.output_names(),
            },
            seq![
                SlotModel {
                    comp: ComponentModel::Nand { num_inputs: 0 },
                    input: spec_unknown(outs),
                    output: spec_unknown(ins),
                    connections: spec_straight_fanout(1, ins),
                    output_changed: true,
                },
                SlotModel {
                    comp: self,
                    input: spec_unknown(ins),
                    output: spec_unknown(outs),
                    connections: spec_straight_fanout(0, outs),
                    output_changed: true,
                },
            ],
        )
    }
}

impl NetModel {
    /// The network of the given slots, wired as the slots say, with every
    /// slot due for evaluation.
    pub open spec fn assemble(info: InfoModel, slots: Seq<SlotModel>) -> NetModel {
        NetModel {
            info,
            slots,
            connections: Seq::new(slots.len(), |i: int| slots[i].connections),
            dirty: Seq::new(slots.len(), |i: int| true),
        }
    }
}

} // verus!
