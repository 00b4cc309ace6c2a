//! The definition compiler: from a component's signature and the statements
//! of its body to the table of its connections.

use crate::assignments::{
    spec_joined, spec_joined_by, spec_mentioned_by, Assignments,
};
use crate::component::{ComponentIndex, Direction};
use crate::info::CompInfo;
use crate::model::InfoModel;
use crate::names::{
    base_of, copy_names, count_separators, is_wildcard, names_view, same_name, spec_base,
    spec_is_wildcard, spec_separators,
};
use vstd::prelude::*;

verus! {

/// The name that marks a statement as an assignment: its inputs are the
/// left-hand names and its outputs the right-hand names.
pub open spec fn spec_assignment_name() -> Seq<char> {
    "actually, I'm just an assignment"@
}

/// Whether a statement of this name is an assignment.
pub fn is_assignment(name: &str) -> (r: bool)
    ensures
        r == (name@ == spec_assignment_name()),
{
    same_name(name, "actually, I'm just an assignment")
}

/// Whether `name` is the name of a primitive.
pub open spec fn spec_is_builtin(name: Seq<char>) -> bool {
    name == "Nand"@ || name == "ConstantBit"@ || name == "Stdin"@ || name == "Stdout"@
}

/// Whether `name` is the name of a primitive.
pub fn is_builtin(name: &str) -> (r: bool)
    ensures
        r == spec_is_builtin(name@),
{
    same_name(name, "Nand") || same_name(name, "ConstantBit") || same_name(name, "Stdin")
        || same_name(name, "Stdout")
}

/// The number of a component's kind: all instances of one kind share it.
#[derive(Debug, Copy, Clone, PartialOrd, Ord, PartialEq, Eq, Hash, Default, Structural)]
pub struct CompId(pub usize);

/// The signatures as models.
pub open spec fn registry_view(components: Seq<CompInfo>) -> Seq<InfoModel> {
    Seq::new(components.len(), |i: int| components[i]@)
}

/// Whether a component called `name` is registered.
pub open spec fn spec_registered(reg: Seq<InfoModel>, name: Seq<char>) -> bool {
    exists|i: int| 0 <= i < reg.len() && #[trigger] reg[i].name == name
}

/// Whether `id` is the number of the first component called `name`.
pub open spec fn spec_is_id(reg: Seq<InfoModel>, name: Seq<char>, id: int) -> bool {
    &&& 0 <= id < reg.len()
    &&& reg[id].name == name
    &&& forall|j: int| 0 <= j < id ==> (#[trigger] reg[j]).name != name
}

/// The number of the first component called `name`.
pub open spec fn spec_id_of(reg: Seq<InfoModel>, name: Seq<char>) -> int {
    choose|id: int| spec_is_id(reg, name, id)
}

/// The first component called `name` has one number only.
pub proof fn lemma_id_unique(reg: Seq<InfoModel>, name: Seq<char>, id: int)
    requires
        spec_is_id(reg, name, id),
    ensures
        spec_id_of(reg, name) == id,
        spec_registered(reg, name),
{
    let other = spec_id_of(reg, name);
    assert(spec_is_id(reg, name, other));
    if other < id {
        assert(reg[other].name != name);
    }
    if id < other {
        assert(reg[id].name != name);
    }
}

/// The number of the first of `components` that is called `name`.
pub fn find_component(components: &Vec<CompInfo>, name: &str) -> (r: Option<usize>)
    ensures
        match r {
            Some(id) => spec_is_id(registry_view(components@), name@, id as int) && spec_id_of(
                registry_view(components@),
                name@,
            ) == id,
            None => !spec_registered(registry_view(components@), name@),
        },
{
    let ghost reg = registry_view(components@);
    let mut i: usize = 0;
    while i < components.len()
        invariant
            i <= components.len(),
            reg == registry_view(components@),
            forall|j: int| 0 <= j < i ==> (#[trigger] reg[j]).name != name@,
        decreases components.len() - i,
    {
        assert(reg[i as int] == components@[i as int]@);
        if same_name(components[i].name.as_str(), name) {
            proof {
                lemma_id_unique(reg, name@, i as int);
            }
            return Some(i);
        }
        i += 1;
    }
    None
}

/// What is wrong with one statement of a body.
#[derive(Debug, Copy, Clone, PartialEq, Eq, Structural)]
pub enum StatementFault {
    /// The statement instantiates the component that is being defined.
    RecursiveDefinition,
    /// The two sides of the assignment differ in length.
    UnbalancedAssignment { left: usize, right: usize },
    /// No component of the statement's name is registered.
    ComponentNotFound,
    /// The component has `expected` inputs, and the statement supplies
    /// `supplied`.
    WrongNumberOfInputs { expected: usize, supplied: usize },
    /// The component has `expected` outputs, and the statement supplies
    /// `supplied`.
    WrongNumberOfOutputs { expected: usize, supplied: usize },
}

/// What is wrong with the statement `c` in the body of the component with
/// the signature `sig`, if anything. A primitive takes any number of ports
/// here: what it needs is known only where it is built.
pub open spec fn spec_statement_fault(reg: Seq<InfoModel>, sig: InfoModel, c: InfoModel) -> Option<
    StatementFault,
> {
    if c.name == sig.name {
        Some(StatementFault::RecursiveDefinition)
    } else if c.name == spec_assignment_name() {
        if c.inputs.len() != c.outputs.len() {
            Some(
                StatementFault::UnbalancedAssignment {
                    left: c.inputs.len() as usize,
                    right: c.outputs.len() as usize,
                },
            )
        } else {
            None
        }
    } else if !spec_registered(reg, c.name) {
        Some(StatementFault::ComponentNotFound)
    } else if spec_is_builtin(c.name) {
        None
    } else {
        let decl = reg[spec_id_of(reg, c.name)];
        if decl.inputs.len() != c.inputs.len() {
            Some(
                StatementFault::WrongNumberOfInputs {
                    expected: decl.inputs.len() as usize,
                    supplied: c.inputs.len() as usize,
                },
            )
        } else if decl.outputs.len() != c.outputs.len() {
            Some(
                StatementFault::WrongNumberOfOutputs {
                    expected: decl.outputs.len() as usize,
                    supplied: c.outputs.len() as usize,
                },
            )
        } else {
            None
        }
    }
}

/// The statements as models.
pub open spec fn body_view(other: Seq<CompInfo>) -> Seq<InfoModel> {
    Seq::new(other.len(), |i: int| other[i]@)
}

/// Whether none of the first `n` statements is at fault.
pub open spec fn spec_faultless(reg: Seq<InfoModel>, sig: InfoModel, body: Seq<InfoModel>, n: int) -> bool {
    forall|k: int| 0 <= k < n ==> spec_statement_fault(reg, sig, #[trigger] body[k]) is None
}

/// The instances among the first `n` statements, in order.
pub open spec fn spec_instances(body: Seq<InfoModel>, n: nat) -> Seq<InfoModel>
    decreases n,
{
    if n == 0 {
        Seq::empty()
    } else {
        let before = spec_instances(body, (n - 1) as nat);
        if body[n - 1].name == spec_assignment_name() {
            before
        } else {
            before.push(body[n - 1])
        }
    }
}

/// The left-hand names of the assignments among the first `n` statements,
/// in order.
pub open spec fn spec_lefts(body: Seq<InfoModel>, n: nat) -> Seq<Seq<char>>
    decreases n,
{
    if n == 0 {
        Seq::empty()
    } else {
        let before = spec_lefts(body, (n - 1) as nat);
        if body[n - 1].name == spec_assignment_name() {
            before + body[n - 1].inputs
        } else {
            before
        }
    }
}

/// The right-hand names of the assignments among the first `n` statements,
/// in order.
pub open spec fn spec_rights(body: Seq<InfoModel>, n: nat) -> Seq<Seq<char>>
    decreases n,
{
    if n == 0 {
        Seq::empty()
    } else {
        let before = spec_rights(body, (n - 1) as nat);
        if body[n - 1].name == spec_assignment_name() {
            before + body[n - 1].outputs
        } else {
            before
        }
    }
}

/// Whether `e` is a pin in the body of the component with the signature
/// `sig` that holds the instances `insts`. Instance 0 is the boundary: the
/// component's inputs are its outputs, and the other way round. Instance
/// `l` is `insts[l - 1]`.
pub open spec fn spec_is_pin(sig: InfoModel, insts: Seq<InfoModel>, e: ComponentIndex) -> bool {
    if e.c_id == 0 {
        match e.direction {
            Direction::Output => e.port_id < sig.inputs.len(),
            Direction::Input => e.port_id < sig.outputs.len(),
        }
    } else {
        e.c_id <= insts.len() && match e.direction {
            Direction::Input => e.port_id < insts[e.c_id - 1].inputs.len(),
            Direction::Output => e.port_id < insts[e.c_id - 1].outputs.len(),
        }
    }
}

/// The name of the signal at the pin `e`.
pub open spec fn spec_pin_name(sig: InfoModel, insts: Seq<InfoModel>, e: ComponentIndex) -> Seq<
    char,
> {
    if e.c_id == 0 {
        match e.direction {
            Direction::Output => sig.inputs[e.port_id as int],
            Direction::Input => sig.outputs[e.port_id as int],
        }
    } else {
        match e.direction {
            Direction::Input => insts[e.c_id - 1].inputs[e.port_id as int],
            Direction::Output => insts[e.c_id - 1].outputs[e.port_id as int],
        }
    }
}

/// Whether `pins` lists each pin of the direction `dir` once, with its name
/// at the same place in `names`.
pub open spec fn spec_lists_pins(
    sig: InfoModel,
    insts: Seq<InfoModel>,
    dir: Direction,
    pins: Seq<ComponentIndex>,
    names: Seq<Seq<char>>,
) -> bool {
    &&& pins.len() == names.len()
    &&& forall|i: int|
        0 <= i < pins.len() ==> {
            &&& spec_is_pin(sig, insts, #[trigger] pins[i])
            &&& pins[i].direction == dir
            &&& names[i] == spec_pin_name(sig, insts, pins[i])
        }
    &&& forall|e: ComponentIndex|
        spec_is_pin(sig, insts, e) && e.direction == dir ==> pins.contains(e)
    &&& forall|i: int, j: int| 0 <= i < j < pins.len() ==> pins[i] != pins[j]
}

/// What the first pass over a body has gathered.
pub struct Scan {
    /// For each instance, the boundary first, the number of its kind.
    pub comp: Vec<CompId>,
    /// For each instance, how many inputs and outputs it is wired with.
    pub generics: Vec<(usize, usize)>,
    /// The pins that give a value out, and the names of their signals.
    pub outs: Vec<ComponentIndex>,
    pub out_names: Vec<String>,
    /// The pins that take a value in, and the names of their signals.
    pub ins: Vec<ComponentIndex>,
    pub in_names: Vec<String>,
    /// The two sides of all assignments.
    pub lefts: Vec<String>,
    pub rights: Vec<String>,
}

impl Scan {
    /// Whether this is what the first `n` statements of `body` give.
    pub open spec fn matches(
        self,
        reg: Seq<InfoModel>,
        sig: InfoModel,
        body: Seq<InfoModel>,
        n: nat,
    ) -> bool {
        let insts = spec_instances(body, n);
        &&& self.comp@.len() == insts.len() + 1
        &&& self.generics@.len() == insts.len() + 1
        &&& self.comp@[0].0 == spec_id_of(reg, sig.name)
        &&& self.generics@[0].0 == sig.inputs.len()
        &&& self.generics@[0].1 == sig.outputs.len()
        &&& forall|l: int|
            1 <= l <= insts.len() ==> {
                &&& (#[trigger] self.comp@[l]).0 == spec_id_of(reg, insts[l - 1].name)
                &&& spec_registered(reg, insts[l - 1].name)
            }
        &&& forall|l: int|
            1 <= l <= insts.len() ==> (#[trigger] self.generics@[l]).0 == insts[l - 1].inputs.len()
                && self.generics@[l].1 == insts[l - 1].outputs.len()
        &&& spec_lists_pins(sig, insts, Direction::Output, self.outs@, names_view(self.out_names@))
        &&& spec_lists_pins(sig, insts, Direction::Input, self.ins@, names_view(self.in_names@))
        &&& names_view(self.lefts@) == spec_lefts(body, n)
        &&& names_view(self.rights@) == spec_rights(body, n)
        &&& self.lefts@.len() == self.rights@.len()
    }
}

/// Why a body does not compile.
#[derive(Debug)]
pub enum CompileError {
    /// The statement number `statement` is at fault.
    Statement { statement: usize, fault: StatementFault },
    /// `name` is an element of an array of more than one dimension.
    UnsupportedArray { name: String },
    /// `name` is used as a signal of its own and as an array.
    ArrayUsedAsBit { name: String },
    /// The signal `signal` is driven by the two pins.
    MultipleDrivers { signal: String, first: ComponentIndex, second: ComponentIndex },
}

/// Appends to `pins` the `n` pins of the instance `l` in the direction
/// `dir`, and their names, `ports`, to `names`.
fn push_pins(
    pins: &mut Vec<ComponentIndex>,
    names: &mut Vec<String>,
    l: usize,
    dir: Direction,
    ports: &Vec<String>,
)
    requires
        old(pins)@.len() == old(names)@.len(),
    ensures
        final(pins)@.len() == old(pins)@.len() + ports@.len(),
        final(names)@.len() == final(pins)@.len(),
        forall|i: int| 0 <= i < old(pins)@.len() ==> final(pins)@[i] == old(pins)@[i],
        forall|i: int| 0 <= i < old(pins)@.len() ==> final(names)@[i]@ == old(names)@[i]@,
        forall|j: int|
            0 <= j < ports@.len() ==> #[trigger] final(pins)@[old(pins)@.len() + j] == (
            ComponentIndex { c_id: l, port_id: j as usize, direction: dir }),
        forall|j: int|
            0 <= j < ports@.len() ==> (#[trigger] final(names)@[old(pins)@.len() + j])@
                == ports@[j]@,
{
    let mut j: usize = 0;
    while j < ports.len()
        invariant
            j <= ports.len(),
            pins@.len() == old(pins)@.len() + j,
            names@.len() == pins@.len(),
            forall|i: int| 0 <= i < old(pins)@.len() ==> pins@[i] == old(pins)@[i],
            forall|i: int| 0 <= i < old(pins)@.len() ==> names@[i]@ == old(names)@[i]@,
            forall|k: int|
                0 <= k < j ==> #[trigger] pins@[old(pins)@.len() + k] == (ComponentIndex {
                    c_id: l,
                    port_id: k as usize,
                    direction: dir,
                }),
            forall|k: int| 0 <= k < j ==> (#[trigger] names@[old(pins)@.len() + k])@ == ports@[k]@,
        decreases ports.len() - j,
    {
        pins.push(ComponentIndex { c_id: l, port_id: j, direction: dir });
        names.push(ports[j].clone());
        j += 1;
    }
}

/// Appends copies of `more` to `names`.
fn push_names(names: &mut Vec<String>, more: &Vec<String>)
    ensures
        names_view(final(names)@) == names_view(old(names)@) + names_view(more@),
{
    let mut j: usize = 0;
    while j < more.len()
        invariant
            j <= more.len(),
            names_view(names@) == names_view(old(names)@) + names_view(more@).take(j as int),
        decreases more.len() - j,
    {
        let ghost before = names_view(names@);
        names.push(more[j].clone());
        j += 1;
        assert(names_view(names@) =~= before.push(more@[j - 1]@));
        assert(names_view(names@) =~= names_view(old(names)@) + names_view(more@).take(j as int));
    }
    assert(names_view(more@).take(more@.len() as int) =~= names_view(more@));
}

/// The pin lists stay right when an instance is appended with its pins.
proof fn lemma_lists_pins_grow(
    sig: InfoModel,
    insts: Seq<InfoModel>,
    c: InfoModel,
    dir: Direction,
    pins: Seq<ComponentIndex>,
    names: Seq<Seq<char>>,
    more_pins: Seq<ComponentIndex>,
    more_names: Seq<Seq<char>>,
)
    requires
        spec_lists_pins(sig, insts, dir, pins, names),
        insts.len() + 1 <= usize::MAX,
        c.inputs.len() <= usize::MAX,
        c.outputs.len() <= usize::MAX,
        more_pins.len() == more_names.len(),
        more_pins.len() == pins.len() + (match dir {
            Direction::Input => c.inputs.len(),
            Direction::Output => c.outputs.len(),
        }),
        forall|i: int| 0 <= i < pins.len() ==> more_pins[i] == pins[i],
        forall|i: int| 0 <= i < pins.len() ==> more_names[i] == names[i],
        forall|j: int|
            0 <= j < more_pins.len() - pins.len() ==> #[trigger] more_pins[pins.len() + j] == (
            ComponentIndex { c_id: (insts.len() + 1) as usize, port_id: j as usize, direction: dir }),
        forall|j: int|
            0 <= j < more_pins.len() - pins.len() ==> #[trigger] more_names[pins.len() + j] == (
            match dir {
                Direction::Input => c.inputs[j],
                Direction::Output => c.outputs[j],
            }),
    ensures
        spec_lists_pins(sig, insts.push(c), dir, more_pins, more_names),
{
    let grown = insts.push(c);
    let l = (insts.len() + 1) as usize;
    assert forall|e: ComponentIndex| spec_is_pin(sig, insts, e) implies spec_is_pin(sig, grown, e)
        && spec_pin_name(sig, grown, e) == spec_pin_name(sig, insts, e) by {
        if e.c_id != 0 {
            assert(grown[e.c_id - 1] == insts[e.c_id - 1]);
        }
    }
    assert forall|i: int| 0 <= i < more_pins.len() implies {
        &&& spec_is_pin(sig, grown, #[trigger] more_pins[i])
        &&& more_pins[i].direction == dir
        &&& more_names[i] == spec_pin_name(sig, grown, more_pins[i])
    } by {
        if i < pins.len() {
            assert(spec_is_pin(sig, insts, pins[i]));
        } else {
            let j = i - pins.len();
            assert(more_pins[pins.len() + j].c_id == l);
            assert(more_names[pins.len() + j] == (match dir {
                Direction::Input => c.inputs[j],
                Direction::Output => c.outputs[j],
            }));
            assert(grown[l - 1] == c);
        }
    }
    assert forall|e: ComponentIndex| spec_is_pin(sig, grown, e) && e.direction
        == dir implies more_pins.contains(e) by {
        if e.c_id == l {
            assert(grown[l - 1] == c);
            assert(more_pins[pins.len() + e.port_id] == e);
        } else {
            if e.c_id != 0 {
                assert(grown[e.c_id - 1] == insts[e.c_id - 1]);
            }
            assert(spec_is_pin(sig, insts, e));
            assert(pins.contains(e));
            let i = choose|i: int| 0 <= i < pins.len() && pins[i] == e;
            assert(more_pins[i] == e);
        }
    }
    assert forall|i: int, j: int| 0 <= i < j < more_pins.len() implies more_pins[i] != more_pins[j] by {
        if j < pins.len() {
            assert(pins[i] != pins[j]);
        } else {
            let b = j - pins.len();
            assert(more_pins[pins.len() + b].c_id == l);
            if i < pins.len() {
                assert(spec_is_pin(sig, insts, pins[i]));
            } else {
                let a = i - pins.len();
                assert(more_pins[pins.len() + a].port_id == a);
                assert(more_pins[pins.len() + b].port_id == b);
            }
        }
    }
}

/// The first pass over a body: checks each statement, numbers the instances,
/// and gathers the pins with the names of their signals and the two sides
/// of the assignments. Fails at the first statement at fault.
pub fn scan_statements(components: &Vec<CompInfo>, c_zero: &CompInfo, other: &[CompInfo]) -> (r:
    Result<Scan, CompileError>)
    requires
        spec_registered(registry_view(components@), c_zero@.name),
    ensures
        match r {
            Ok(s) => {
                &&& spec_faultless(
                    registry_view(components@),
                    c_zero@,
                    body_view(other@),
                    other@.len() as int,
                )
                &&& s.matches(
                    registry_view(components@),
                    c_zero@,
                    body_view(other@),
                    other@.len() as nat,
                )
            },
            Err(CompileError::Statement { statement, fault }) => {
                &&& statement < other@.len()
                &&& spec_statement_fault(
                    registry_view(components@),
                    c_zero@,
                    body_view(other@)[statement as int],
                ) == Some(fault)
                &&& spec_faultless(
                    registry_view(components@),
                    c_zero@,
                    body_view(other@),
                    statement as int,
                )
            },
            Err(_) => false,
        },
{
    let ghost reg = registry_view(components@);
    let ghost sig = c_zero@;
    let ghost body = body_view(other@);
    let own = find_component(components, c_zero.name.as_str());
    let own_id = match own {
        Some(id) => id,
        None => 0,
    };
    let mut s = Scan {
        comp: Vec::new(),
        generics: Vec::new(),
        outs: Vec::new(),
        out_names: Vec::new(),
        ins: Vec::new(),
        in_names: Vec::new(),
        lefts: Vec::new(),
        rights: Vec::new(),
    };
    s.comp.push(CompId(own_id));
    s.generics.push((c_zero.inputs.len(), c_zero.outputs.len()));
    push_pins(&mut s.outs, &mut s.out_names, 0, Direction::Output, &c_zero.inputs);
    push_pins(&mut s.ins, &mut s.in_names, 0, Direction::Input, &c_zero.outputs);
    proof {
        let none = Seq::<InfoModel>::empty();
        assert(spec_instances(body, 0) =~= none);
        let outs = s.outs@;
        let out_names = names_view(s.out_names@);
        assert forall|e: ComponentIndex| spec_is_pin(sig, none, e) && e.direction
            == Direction::Output implies outs.contains(e) by {
            assert(outs[0 + e.port_id] == e);
        }
        assert forall|i: int| 0 <= i < outs.len() implies {
            &&& spec_is_pin(sig, none, #[trigger] outs[i])
            &&& outs[i].direction == Direction::Output
            &&& out_names[i] == spec_pin_name(sig, none, outs[i])
        } by {
            assert(outs[0 + i].port_id == i);
            assert(s.out_names@[0 + i]@ == c_zero.inputs@[i]@);
        }
        assert forall|i: int, j: int| 0 <= i < j < outs.len() implies outs[i] != outs[j] by {
            assert(outs[0 + i].port_id == i);
            assert(outs[0 + j].port_id == j);
        }
        let ins = s.ins@;
        let in_names = names_view(s.in_names@);
        assert forall|e: ComponentIndex| spec_is_pin(sig, none, e) && e.direction
            == Direction::Input implies ins.contains(e) by {
            assert(ins[0 + e.port_id] == e);
        }
        assert forall|i: int| 0 <= i < ins.len() implies {
            &&& spec_is_pin(sig, none, #[trigger] ins[i])
            &&& ins[i].direction == Direction::Input
            &&& in_names[i] == spec_pin_name(sig, none, ins[i])
        } by {
            assert(ins[0 + i].port_id == i);
            assert(s.in_names@[0 + i]@ == c_zero.outputs@[i]@);
        }
        assert forall|i: int, j: int| 0 <= i < j < ins.len() implies ins[i] != ins[j] by {
            assert(ins[0 + i].port_id == i);
            assert(ins[0 + j].port_id == j);
        }
        assert(names_view(s.lefts@) =~= spec_lefts(body, 0));
        assert(names_view(s.rights@) =~= spec_rights(body, 0));
    }
    let mut k: usize = 0;
    while k < other.len()
        invariant
            k <= other.len(),
            reg == registry_view(components@),
            sig == c_zero@,
            body == body_view(other@),
            spec_faultless(reg, sig, body, k as int),
            s.matches(reg, sig, body, k as nat),
        decreases other.len() - k,
    {
        let c = &other[k];
        let ghost cm = body[k as int];
        let ghost insts = spec_instances(body, k as nat);
        assert(cm == c@);
        if same_name(c_zero.name.as_str(), c.name.as_str()) {
            return Err(
                CompileError::Statement { statement: k, fault: StatementFault::RecursiveDefinition },
            );
        }
        if is_assignment(c.name.as_str()) {
            if c.inputs.len() != c.outputs.len() {
                return Err(
                    CompileError::Statement {
                        statement: k,
                        fault: StatementFault::UnbalancedAssignment {
                            left: c.inputs.len(),
                            right: c.outputs.len(),
                        },
                    },
                );
            }
            let ghost before = s;
            push_names(&mut s.lefts, &c.inputs);
            push_names(&mut s.rights, &c.outputs);
            proof {
                assert(spec_instances(body, (k + 1) as nat) == insts);
                assert(spec_lefts(body, (k + 1) as nat) == spec_lefts(body, k as nat) + cm.inputs);
                assert(spec_rights(body, (k + 1) as nat) == spec_rights(body, k as nat) + cm.outputs);
                assert(names_view(s.lefts@).len() == s.lefts@.len());
                assert(names_view(s.rights@).len() == s.rights@.len());
                assert(names_view(before.lefts@).len() == before.lefts@.len());
                assert(names_view(before.rights@).len() == before.rights@.len());
                assert(cm.inputs.len() == c.inputs@.len());
                assert(cm.outputs.len() == c.outputs@.len());
            }
            k += 1;
            continue ;
        }
        let id = match find_component(components, c.name.as_str()) {
            Some(id) => id,
            None => {
                return Err(
                    CompileError::Statement {
                        statement: k,
                        fault: StatementFault::ComponentNotFound,
                    },
                );
            },
        };
        if !is_builtin(c.name.as_str()) {
            assert(reg[id as int] == components@[id as int]@);
            if components[id].inputs.len() != c.inputs.len() {
                return Err(
                    CompileError::Statement {
                        statement: k,
                        fault: StatementFault::WrongNumberOfInputs {
                            expected: components[id].inputs.len(),
                            supplied: c.inputs.len(),
                        },
                    },
                );
            }
            if components[id].outputs.len() != c.outputs.len() {
                return Err(
                    CompileError::Statement {
                        statement: k,
                        fault: StatementFault::WrongNumberOfOutputs {
                            expected: components[id].outputs.len(),
                            supplied: c.outputs.len(),
                        },
                    },
                );
            }
        }
        let l = s.comp.len();
        let ghost before = s;
        s.comp.push(CompId(id));
        s.generics.push((c.inputs.len(), c.outputs.len()));
        push_pins(&mut s.ins, &mut s.in_names, l, Direction::Input, &c.inputs);
        push_pins(&mut s.outs, &mut s.out_names, l, Direction::Output, &c.outputs);
        proof {
            let grown = insts.push(cm);
            assert(spec_instances(body, (k + 1) as nat) == grown);
            assert(spec_lefts(body, (k + 1) as nat) == spec_lefts(body, k as nat));
            assert(spec_rights(body, (k + 1) as nat) == spec_rights(body, k as nat));
            assert(l == insts.len() + 1);
            assert(cm.inputs.len() == c.inputs@.len());
            assert(cm.outputs.len() == c.outputs@.len());
            assert(s.comp@[0] == before.comp@[0]);
            assert(s.generics@[0] == before.generics@[0]);
            assert forall|j: int| 0 <= j < c.inputs@.len() implies #[trigger] names_view(s.in_names@)[before.ins@.len() + j]
                == cm.inputs[j] by {
                assert(s.in_names@[before.ins@.len() + j]@ == c.inputs@[j]@);
            }
            assert forall|j: int| 0 <= j < c.outputs@.len() implies #[trigger] names_view(s.out_names@)[before.outs@.len() + j]
                == cm.outputs[j] by {
                assert(s.out_names@[before.outs@.len() + j]@ == c.outputs@[j]@);
            }
            lemma_lists_pins_grow(
                sig,
                insts,
                cm,
                Direction::Input,
                before.ins@,
                names_view(before.in_names@),
                s.ins@,
                names_view(s.in_names@),
            );
            lemma_lists_pins_grow(
                sig,
                insts,
                cm,
                Direction::Output,
                before.outs@,
                names_view(before.out_names@),
                s.outs@,
                names_view(s.out_names@),
            );
            assert forall|m: int| 1 <= m <= grown.len() implies {
                &&& (#[trigger] s.comp@[m]).0 == spec_id_of(reg, grown[m - 1].name)
                &&& spec_registered(reg, grown[m - 1].name)
            } by {
                if m < l {
                    assert(s.comp@[m] == before.comp@[m]);
                    assert(grown[m - 1] == insts[m - 1]);
                }
            }
            assert forall|m: int| 1 <= m <= grown.len() implies (#[trigger] s.generics@[m]).0
                == grown[m - 1].inputs.len() && s.generics@[m].1 == grown[m - 1].outputs.len() by {
                if m < l {
                    assert(s.generics@[m] == before.generics@[m]);
                    assert(grown[m - 1] == insts[m - 1]);
                }
            }
        }
        k += 1;
    }
    Ok(s)
}

/// Whether `a` and `b` name the same signal.
pub fn joined(assign: &Assignments, a: &str, b: &str) -> (r: bool)
    requires
        assign.wf(),
    ensures
        r == spec_joined(assign@, a@, b@),
{
    if same_name(a, b) {
        return true;
    }
    match assign.find(a) {
        Some(x) => match assign.find(b) {
            Some(y) => x == y,
            None => false,
        },
        None => false,
    }
}

/// Whether a name of `names` is an element of an array of more than one
/// dimension.
pub open spec fn spec_has_deep_array(names: Seq<Seq<char>>) -> bool {
    exists|i: int| 0 <= i < names.len() && spec_separators(#[trigger] names[i]) >= 2
}

/// Whether `bit` is among `names` and is also the name of an array an
/// element of which is among `names`.
pub open spec fn spec_is_array_and_bit(names: Seq<Seq<char>>, bit: Seq<char>) -> bool {
    names.contains(bit) && exists|i: int|
        0 <= i < names.len() && spec_separators(#[trigger] names[i]) == 1 && spec_base(names[i])
            == bit
}

/// Whether a name of `names` is used as a signal of its own and as an array.
pub open spec fn spec_has_array_and_bit(names: Seq<Seq<char>>) -> bool {
    exists|bit: Seq<char>| spec_is_array_and_bit(names, bit)
}

/// Checks the use of arrays among `used`: no element of an array of more
/// than one dimension, and no name that is both an array and a signal of
/// its own.
pub fn check_arrays(used: &Vec<String>) -> (r: Result<(), CompileError>)
    ensures
        match r {
            Ok(_) => !spec_has_deep_array(names_view(used@)) && !spec_has_array_and_bit(
                names_view(used@),
            ),
            Err(CompileError::UnsupportedArray { name }) => names_view(used@).contains(name@)
                && spec_separators(name@) >= 2,
            Err(CompileError::ArrayUsedAsBit { name }) => !spec_has_deep_array(names_view(used@))
                && spec_is_array_and_bit(names_view(used@), name@),
            Err(_) => false,
        },
{
    let ghost names = names_view(used@);
    let mut i: usize = 0;
    while i < used.len()
        invariant
            i <= used.len(),
            names == names_view(used@),
            forall|j: int| 0 <= j < i ==> spec_separators(#[trigger] names[j]) < 2,
        decreases used.len() - i,
    {
        assert(names[i as int] == used@[i as int]@);
        if count_separators(used[i].as_str()) >= 2 {
            return Err(CompileError::UnsupportedArray { name: used[i].clone() });
        }
        i += 1;
    }
    let mut i: usize = 0;
    while i < used.len()
        invariant
            i <= used.len(),
            names == names_view(used@),
            !spec_has_deep_array(names),
            forall|j: int|
                0 <= j < i ==> !(spec_separators(#[trigger] names[j]) == 1 && names.contains(
                    spec_base(names[j]),
                )),
        decreases used.len() - i,
    {
        assert(names[i as int] == used@[i as int]@);
        if count_separators(used[i].as_str()) == 1 {
            let base = base_of(used[i].as_str());
            match crate::names::find_name(used, base.as_str()) {
                Some(j) => {
                    assert(names[j as int] == used@[j as int]@);
                    return Err(CompileError::ArrayUsedAsBit { name: used[j].clone() });
                },
                None => {},
            }
        }
        i += 1;
    }
    assert(!spec_has_array_and_bit(names)) by {
        if spec_has_array_and_bit(names) {
            let bit = choose|bit: Seq<char>| spec_is_array_and_bit(names, bit);
            let j = choose|j: int|
                0 <= j < names.len() && spec_separators(#[trigger] names[j]) == 1 && spec_base(
                    names[j],
                ) == bit;
            assert(names.contains(spec_base(names[j])));
        }
    }
    Ok(())
}

/// The names of the first `g` groups, one group after the other.
pub open spec fn spec_flat(groups: Seq<Seq<Seq<char>>>, g: nat) -> Seq<Seq<char>>
    decreases g,
{
    if g == 0 {
        Seq::empty()
    } else {
        spec_flat(groups, (g - 1) as nat) + groups[g - 1]
    }
}

/// The names of all signals of a body: those at the output pins, those at
/// the input pins, and those in the groups.
pub open spec fn spec_used_names(
    out_names: Seq<Seq<char>>,
    in_names: Seq<Seq<char>>,
    groups: Seq<Seq<Seq<char>>>,
) -> Seq<Seq<char>> {
    out_names + in_names + spec_flat(groups, groups.len())
}

/// The names of the signals at the pins and in the groups, one after the
/// other.
pub fn used_names(s: &Scan, assign: &Assignments) -> (used: Vec<String>)
    ensures
        names_view(used@) == spec_used_names(
            names_view(s.out_names@),
            names_view(s.in_names@),
            assign@,
        ),
{
    let mut used = copy_names(&s.out_names);
    push_names(&mut used, &s.in_names);
    let ghost pins = names_view(used@);
    let groups = assign.len();
    let mut g: usize = 0;
    assert(names_view(used@) =~= pins + spec_flat(assign@, 0));
    while g < groups
        invariant
            g <= groups,
            groups == assign@.len(),
            names_view(used@) == pins + spec_flat(assign@, g as nat),
        decreases groups - g,
    {
        push_names(&mut used, assign.group(g));
        g += 1;
        assert(names_view(used@) =~= pins + spec_flat(assign@, g as nat));
    }
    used
}

/// The flattened groups hold the names that are in some group.
pub proof fn lemma_flat_mentions(groups: Seq<Seq<Seq<char>>>, g: nat, name: Seq<char>)
    requires
        g <= groups.len(),
    ensures
        spec_flat(groups, g).contains(name) <==> exists|h: int|
            0 <= h < g && crate::assignments::spec_in_group(groups, h, name),
    decreases g,
{
    if g > 0 {
        lemma_flat_mentions(groups, (g - 1) as nat, name);
        lemma_concat_names(spec_flat(groups, (g - 1) as nat), groups[g - 1], name);
        if groups[g - 1].contains(name) {
            assert(crate::assignments::spec_in_group(groups, g - 1, name));
        }
        if exists|h: int| 0 <= h < g && crate::assignments::spec_in_group(groups, h, name) {
            let h = choose|h: int| 0 <= h < g && crate::assignments::spec_in_group(groups, h, name);
            if h < g - 1 {
                assert(0 <= h < g - 1 && crate::assignments::spec_in_group(groups, h, name));
            }
        }
    }
}

/// A sequence put after another holds what either holds.
pub proof fn lemma_concat_names(s: Seq<Seq<char>>, t: Seq<Seq<char>>, a: Seq<char>)
    ensures
        (s + t).contains(a) <==> s.contains(a) || t.contains(a),
{
    let u = s + t;
    if s.contains(a) {
        let j = choose|j: int| 0 <= j < s.len() && s[j] == a;
        assert(u[j] == a);
    }
    if t.contains(a) {
        let j = choose|j: int| 0 <= j < t.len() && t[j] == a;
        assert(u[s.len() + j] == a);
    }
    if u.contains(a) {
        let j = choose|j: int| 0 <= j < u.len() && u[j] == a;
        if j < s.len() {
            assert(s[j] == a);
        } else {
            assert(t[j - s.len()] == a);
        }
    }
}

/// One entry of a connection table: a pin that drives a signal, and the
/// pins that the signal is delivered to.
pub struct Connection {
    pub from: ComponentIndex,
    pub to: Vec<ComponentIndex>,
}

/// The entries as pairs of a driver and its loads.
pub open spec fn connections_view(v: Seq<Connection>) -> Seq<(ComponentIndex, Seq<ComponentIndex>)> {
    Seq::new(v.len(), |i: int| (v[i].from, v[i].to@))
}

/// Those of the first `k` input pins whose signal is `signal`, in order.
pub open spec fn spec_loads(
    groups: Seq<Seq<Seq<char>>>,
    ins: Seq<ComponentIndex>,
    in_names: Seq<Seq<char>>,
    signal: Seq<char>,
    k: nat,
) -> Seq<ComponentIndex>
    decreases k,
{
    if k == 0 {
        Seq::empty()
    } else {
        let before = spec_loads(groups, ins, in_names, signal, (k - 1) as nat);
        if spec_joined(groups, signal, in_names[k - 1]) {
            before.push(ins[k - 1])
        } else {
            before
        }
    }
}

/// The connection table of the first `n` output pins: for each of them that
/// is not on the wildcard, in order, the pin and the input pins on its
/// signal.
pub open spec fn spec_table(
    groups: Seq<Seq<Seq<char>>>,
    outs: Seq<ComponentIndex>,
    out_names: Seq<Seq<char>>,
    ins: Seq<ComponentIndex>,
    in_names: Seq<Seq<char>>,
    n: nat,
) -> Seq<(ComponentIndex, Seq<ComponentIndex>)>
    decreases n,
{
    if n == 0 {
        Seq::empty()
    } else {
        let before = spec_table(groups, outs, out_names, ins, in_names, (n - 1) as nat);
        if spec_is_wildcard(out_names[n - 1]) {
            before
        } else {
            before.push(
                (outs[n - 1], spec_loads(groups, ins, in_names, out_names[n - 1], ins.len())),
            )
        }
    }
}

/// Whether the output pins number `i` and `k` drive one signal: they are
/// two pins, the first not on the wildcard, and their names are joined.
pub open spec fn spec_conflict(
    groups: Seq<Seq<Seq<char>>>,
    out_names: Seq<Seq<char>>,
    i: int,
    k: int,
) -> bool {
    &&& 0 <= i < out_names.len()
    &&& 0 <= k < out_names.len()
    &&& i != k
    &&& !spec_is_wildcard(out_names[i])
    &&& spec_joined(groups, out_names[i], out_names[k])
}

/// Whether two output pins drive one signal.
pub open spec fn spec_has_conflict(groups: Seq<Seq<Seq<char>>>, out_names: Seq<Seq<char>>) -> bool {
    exists|i: int, k: int| spec_conflict(groups, out_names, i, k)
}

/// The second pass: for each output pin that is not on the wildcard, in
/// order, the input pins on its signal. Fails if two output pins drive one
/// signal.
pub fn connect(s: &Scan, assign: &Assignments) -> (r: Result<Vec<Connection>, CompileError>)
    requires
        assign.wf(),
        s.outs@.len() == s.out_names@.len(),
        s.ins@.len() == s.in_names@.len(),
    ensures
        match r {
            Ok(table) => {
                &&& !spec_has_conflict(assign@, names_view(s.out_names@))
                &&& connections_view(table@) == spec_table(
                    assign@,
                    s.outs@,
                    names_view(s.out_names@),
                    s.ins@,
                    names_view(s.in_names@),
                    s.outs@.len(),
                )
            },
            Err(CompileError::MultipleDrivers { signal, first, second }) => exists|i: int, k: int|
                {
                    &&& #[trigger] spec_conflict(assign@, names_view(s.out_names@), i, k)
                    &&& first == s.outs@[i]
                    &&& second == s.outs@[k]
                    &&& signal@ == names_view(s.out_names@)[i]
                },
            Err(_) => false,
        },
{
    let ghost groups = assign@;
    let ghost out_names = names_view(s.out_names@);
    let ghost in_names = names_view(s.in_names@);
    let n = s.outs.len();
    let mut table: Vec<Connection> = Vec::new();
    let mut i: usize = 0;
    assert(connections_view(table@) =~= spec_table(groups, s.outs@, out_names, s.ins@, in_names, 0));
    while i < n
        invariant
            i <= n,
            n == s.outs@.len(),
            n == s.out_names@.len(),
            s.ins@.len() == s.in_names@.len(),
            assign.wf(),
            groups == assign@,
            out_names == names_view(s.out_names@),
            in_names == names_view(s.in_names@),
            forall|a: int, k: int| 0 <= a < i ==> !spec_conflict(groups, out_names, a, k),
            connections_view(table@) == spec_table(
                groups,
                s.outs@,
                out_names,
                s.ins@,
                in_names,
                i as nat,
            ),
        decreases n - i,
    {
        assert(out_names[i as int] == s.out_names@[i as int]@);
        if is_wildcard(s.out_names[i].as_str()) {
            i += 1;
            continue ;
        }
        let mut k: usize = 0;
        while k < n
            invariant
                k <= n,
                i < n,
                n == s.outs@.len(),
                n == s.out_names@.len(),
                assign.wf(),
                groups == assign@,
                out_names == names_view(s.out_names@),
                !spec_is_wildcard(out_names[i as int]),
                forall|b: int| 0 <= b < k ==> !spec_conflict(groups, out_names, i as int, b),
            decreases n - k,
        {
            assert(out_names[k as int] == s.out_names@[k as int]@);
            assert(out_names[i as int] == s.out_names@[i as int]@);
            if k != i && joined(assign, s.out_names[i].as_str(), s.out_names[k].as_str()) {
                let signal = s.out_names[i].clone();
                let first = s.outs[i];
                let second = s.outs[k];
                assert(spec_conflict(groups, out_names, i as int, k as int) && first == s.outs@[i as int]
                    && second == s.outs@[k as int] && signal@ == out_names[i as int]);
                return Err(CompileError::MultipleDrivers { signal, first, second });
            }
            k += 1;
        }
        let ghost signal = out_names[i as int];
        let mut loads: Vec<ComponentIndex> = Vec::new();
        let m = s.ins.len();
        let mut k: usize = 0;
        assert(loads@ =~= spec_loads(groups, s.ins@, in_names, signal, 0));
        while k < m
            invariant
                k <= m,
                i < n,
                m == s.ins@.len(),
                m == s.in_names@.len(),
                n == s.out_names@.len(),
                assign.wf(),
                groups == assign@,
                out_names == names_view(s.out_names@),
                in_names == names_view(s.in_names@),
                signal == out_names[i as int],
                loads@ == spec_loads(groups, s.ins@, in_names, signal, k as nat),
            decreases m - k,
        {
            assert(in_names[k as int] == s.in_names@[k as int]@);
            assert(out_names[i as int] == s.out_names@[i as int]@);
            if joined(assign, s.out_names[i].as_str(), s.in_names[k].as_str()) {
                loads.push(s.ins[k]);
            }
            k += 1;
        }
        let ghost before = connections_view(table@);
        table.push(Connection { from: s.outs[i], to: loads });
        assert(connections_view(table@) =~= before.push((s.outs@[i as int], loads@)));
        i += 1;
    }
    assert(!spec_has_conflict(groups, out_names));
    Ok(table)
}

/// What the loads of a signal are: the input pins on the signal, each once
/// if each input pin is listed once.
pub proof fn lemma_loads_meaning(
    groups: Seq<Seq<Seq<char>>>,
    ins: Seq<ComponentIndex>,
    in_names: Seq<Seq<char>>,
    signal: Seq<char>,
    k: nat,
)
    requires
        k <= ins.len(),
        ins.len() == in_names.len(),
    ensures
        forall|e: ComponentIndex|
            spec_loads(groups, ins, in_names, signal, k).contains(e) <==> exists|j: int|
                0 <= j < k && #[trigger] ins[j] == e && spec_joined(groups, signal, in_names[j]),
        (forall|i: int, j: int| 0 <= i < j < ins.len() ==> ins[i] != ins[j]) ==> forall|
            a: int,
            b: int,
        |
            0 <= a < b < spec_loads(groups, ins, in_names, signal, k).len() ==> spec_loads(
                groups,
                ins,
                in_names,
                signal,
                k,
            )[a] != spec_loads(groups, ins, in_names, signal, k)[b],
    decreases k,
{
    let loads = spec_loads(groups, ins, in_names, signal, k);
    if k > 0 {
        let m = (k - 1) as nat;
        let before = spec_loads(groups, ins, in_names, signal, m);
        lemma_loads_meaning(groups, ins, in_names, signal, m);
        let hit = spec_joined(groups, signal, in_names[k - 1]);
        assert forall|e: ComponentIndex| loads.contains(e) <==> exists|j: int|
            0 <= j < k && #[trigger] ins[j] == e && spec_joined(groups, signal, in_names[j]) by {
            if loads.contains(e) {
                let a = choose|a: int| 0 <= a < loads.len() && loads[a] == e;
                if a < before.len() {
                    assert(before[a] == e);
                    assert(before.contains(e));
                    let j = choose|j: int|
                        0 <= j < m && #[trigger] ins[j] == e && spec_joined(
                            groups,
                            signal,
                            in_names[j],
                        );
                    assert(0 <= j < k && ins[j] == e && spec_joined(groups, signal, in_names[j]));
                } else {
                    assert(ins[k - 1] == e);
                }
            }
            if exists|j: int|
                0 <= j < k && #[trigger] ins[j] == e && spec_joined(groups, signal, in_names[j]) {
                let j = choose|j: int|
                    0 <= j < k && #[trigger] ins[j] == e && spec_joined(groups, signal, in_names[j]);
                if j < m {
                    assert(before.contains(e));
                    let a = choose|a: int| 0 <= a < before.len() && before[a] == e;
                    assert(loads[a] == e);
                } else {
                    assert(loads[before.len() as int] == e);
                }
            }
        }
        if forall|i: int, j: int| 0 <= i < j < ins.len() ==> ins[i] != ins[j] {
            assert forall|a: int, b: int| 0 <= a < b < loads.len() implies loads[a] != loads[b] by {
                if b < before.len() {
                    assert(before[a] != before[b]);
                } else {
                    assert(loads[a] == before[a]);
                    assert(before.contains(before[a]));
                    let j = choose|j: int|
                        0 <= j < m && #[trigger] ins[j] == before[a] && spec_joined(
                            groups,
                            signal,
                            in_names[j],
                        );
                    assert(ins[j] != ins[k - 1]);
                }
            }
        }
    }
}

/// Whether `row` is the entry of the output pin number `i`: the pin is not
/// on the wildcard, and the entry holds it and the input pins on its signal.
pub open spec fn spec_row_of(
    groups: Seq<Seq<Seq<char>>>,
    outs: Seq<ComponentIndex>,
    out_names: Seq<Seq<char>>,
    ins: Seq<ComponentIndex>,
    in_names: Seq<Seq<char>>,
    row: (ComponentIndex, Seq<ComponentIndex>),
    i: int,
) -> bool {
    &&& 0 <= i < outs.len()
    &&& !spec_is_wildcard(out_names[i])
    &&& row == (outs[i], spec_loads(groups, ins, in_names, out_names[i], ins.len()))
}

/// Whether `row` is the entry of one of the first `n` output pins.
pub open spec fn spec_row_among(
    groups: Seq<Seq<Seq<char>>>,
    outs: Seq<ComponentIndex>,
    out_names: Seq<Seq<char>>,
    ins: Seq<ComponentIndex>,
    in_names: Seq<Seq<char>>,
    row: (ComponentIndex, Seq<ComponentIndex>),
    n: int,
) -> bool {
    exists|i: int| i < n && #[trigger] spec_row_of(groups, outs, out_names, ins, in_names, row, i)
}

/// What the entries of a connection table are: one for each output pin that
/// is not on the wildcard, and no others.
pub proof fn lemma_table_meaning(
    groups: Seq<Seq<Seq<char>>>,
    outs: Seq<ComponentIndex>,
    out_names: Seq<Seq<char>>,
    ins: Seq<ComponentIndex>,
    in_names: Seq<Seq<char>>,
    n: nat,
)
    requires
        n <= outs.len(),
        outs.len() == out_names.len(),
    ensures
        forall|c: int|
            0 <= c < spec_table(groups, outs, out_names, ins, in_names, n).len()
                ==> spec_row_among(
                groups,
                outs,
                out_names,
                ins,
                in_names,
                #[trigger] spec_table(groups, outs, out_names, ins, in_names, n)[c],
                n as int,
            ),
        forall|i: int|
            0 <= i < n && !spec_is_wildcard(out_names[i]) ==> exists|c: int|
                0 <= c < spec_table(groups, outs, out_names, ins, in_names, n).len()
                    && #[trigger] spec_row_of(
                    groups,
                    outs,
                    out_names,
                    ins,
                    in_names,
                    spec_table(groups, outs, out_names, ins, in_names, n)[c],
                    i,
                ),
        (forall|i: int, j: int| 0 <= i < j < outs.len() ==> outs[i] != outs[j]) ==> forall|
            c: int,
            d: int,
        |
            0 <= c < d < spec_table(groups, outs, out_names, ins, in_names, n).len() ==> spec_table(
                groups,
                outs,
                out_names,
                ins,
                in_names,
                n,
            )[c].0 != spec_table(groups, outs, out_names, ins, in_names, n)[d].0,
    decreases n,
{
    let table = spec_table(groups, outs, out_names, ins, in_names, n);
    if n > 0 {
        let m = (n - 1) as nat;
        let before = spec_table(groups, outs, out_names, ins, in_names, m);
        lemma_table_meaning(groups, outs, out_names, ins, in_names, m);
        assert forall|c: int| 0 <= c < table.len() implies spec_row_among(
            groups,
            outs,
            out_names,
            ins,
            in_names,
            #[trigger] table[c],
            n as int,
        ) by {
            if c < before.len() {
                assert(table[c] == before[c]);
                assert(spec_row_among(groups, outs, out_names, ins, in_names, before[c], m as int));
                let i = choose|i: int|
                    i < m && #[trigger] spec_row_of(
                        groups,
                        outs,
                        out_names,
                        ins,
                        in_names,
                        before[c],
                        i,
                    );
                assert(i < n && spec_row_of(groups, outs, out_names, ins, in_names, table[c], i));
            } else {
                assert(spec_row_of(groups, outs, out_names, ins, in_names, table[c], n - 1));
            }
        }
        assert forall|i: int| 0 <= i < n && !spec_is_wildcard(out_names[i]) implies exists|c: int|
            0 <= c < table.len() && #[trigger] spec_row_of(
                groups,
                outs,
                out_names,
                ins,
                in_names,
                table[c],
                i,
            ) by {
            if i < m {
                let c = choose|c: int|
                    0 <= c < before.len() && #[trigger] spec_row_of(
                        groups,
                        outs,
                        out_names,
                        ins,
                        in_names,
                        before[c],
                        i,
                    );
                assert(table[c] == before[c]);
                assert(spec_row_of(groups, outs, out_names, ins, in_names, table[c], i));
            } else {
                let c = before.len() as int;
                assert(spec_row_of(groups, outs, out_names, ins, in_names, table[c], i));
            }
        }
        if forall|i: int, j: int| 0 <= i < j < outs.len() ==> outs[i] != outs[j] {
            assert forall|c: int, d: int| 0 <= c < d < table.len() implies table[c].0
                != table[d].0 by {
                if d < before.len() {
                    assert(before[c].0 != before[d].0);
                } else {
                    assert(table[c] == before[c]);
                    assert(spec_row_among(
                        groups,
                        outs,
                        out_names,
                        ins,
                        in_names,
                        before[c],
                        m as int,
                    ));
                    let i = choose|i: int|
                        i < m && #[trigger] spec_row_of(
                            groups,
                            outs,
                            out_names,
                            ins,
                            in_names,
                            before[c],
                            i,
                        );
                    assert(outs[i] != outs[n - 1]);
                }
            }
        }
    }
}

/// The body of a component as the compiler sees it: the signature, the
/// instances in order, and the two sides of all assignments.
pub struct BodyModel {
    pub sig: InfoModel,
    pub insts: Seq<InfoModel>,
    pub lefts: Seq<Seq<char>>,
    pub rights: Seq<Seq<char>>,
}

/// The body made of the statements `body` under the signature `sig`.
pub open spec fn spec_body(sig: InfoModel, body: Seq<InfoModel>) -> BodyModel {
    BodyModel {
        sig,
        insts: spec_instances(body, body.len()),
        lefts: spec_lefts(body, body.len()),
        rights: spec_rights(body, body.len()),
    }
}

impl BodyModel {
    /// Whether `e` is a pin of the body.
    pub open spec fn is_pin(self, e: ComponentIndex) -> bool {
        spec_is_pin(self.sig, self.insts, e)
    }

    /// The name of the signal at the pin `e`.
    pub open spec fn pin_name(self, e: ComponentIndex) -> Seq<char> {
        spec_pin_name(self.sig, self.insts, e)
    }

    /// Whether `a` and `b` name one signal: they are the same name, or the
    /// assignments of the body, taken in order, have made them equivalent.
    pub open spec fn same_signal(self, a: Seq<char>, b: Seq<char>) -> bool {
        spec_joined_by(Seq::empty(), self.lefts, self.rights, self.lefts.len(), a, b)
    }

    /// Whether `name` is the name of a signal of the body: it stands at a
    /// pin, or in an assignment that says something.
    pub open spec fn used(self, name: Seq<char>) -> bool {
        (exists|e: ComponentIndex| self.is_pin(e) && #[trigger] self.pin_name(e) == name)
            || spec_mentioned_by(Seq::empty(), self.lefts, self.rights, self.lefts.len(), name)
    }

    /// Whether a signal of the body is an element of an array of more than
    /// one dimension.
    pub open spec fn deep_array(self) -> bool {
        exists|name: Seq<char>| #[trigger] self.used(name) && spec_separators(name) >= 2
    }

    /// Whether `bit` is a signal of the body and also the name of an array
    /// of the body.
    pub open spec fn array_and_bit(self, bit: Seq<char>) -> bool {
        self.used(bit) && exists|arr: Seq<char>|
            #[trigger] self.used(arr) && spec_separators(arr) == 1 && spec_base(arr) == bit
    }

    /// Whether `d` drives a signal: it is an output pin, and not on the
    /// wildcard.
    pub open spec fn drives(self, d: ComponentIndex) -> bool {
        self.is_pin(d) && d.direction == Direction::Output && !spec_is_wildcard(self.pin_name(d))
    }

    /// Whether the driver `d` feeds the pin `e`: `e` is an input pin on the
    /// signal of `d`.
    pub open spec fn feeds(self, d: ComponentIndex, e: ComponentIndex) -> bool {
        &&& self.drives(d)
        &&& self.is_pin(e)
        &&& e.direction == Direction::Input
        &&& self.same_signal(self.pin_name(d), self.pin_name(e))
    }

    /// Whether `d1` and `d2` are two output pins that drive one signal.
    pub open spec fn double_driven(self, d1: ComponentIndex, d2: ComponentIndex) -> bool {
        &&& self.drives(d1)
        &&& self.is_pin(d2)
        &&& d2.direction == Direction::Output
        &&& d1 != d2
        &&& self.same_signal(self.pin_name(d1), self.pin_name(d2))
    }
}

/// A compiled definition: the kinds of the instances, the boundary first;
/// how many inputs and outputs each is wired with; and for each pin that
/// drives a signal the pins that it feeds.
pub struct DefModel {
    pub comp: Seq<CompId>,
    pub generics: Seq<(usize, usize)>,
    pub connections: Seq<(ComponentIndex, Seq<ComponentIndex>)>,
}

impl DefModel {
    /// How many pins of the instance `l` give a value out.
    pub open spec fn out_count(self, l: int) -> int {
        if l == 0 {
            self.generics[0].0 as int
        } else {
            self.generics[l].1 as int
        }
    }

    /// How many pins of the instance `l` take a value in.
    pub open spec fn in_count(self, l: int) -> int {
        if l == 0 {
            self.generics[0].1 as int
        } else {
            self.generics[l].0 as int
        }
    }

    pub open spec fn valid_driver(self, d: ComponentIndex) -> bool {
        d.direction == Direction::Output && d.c_id < self.comp.len() && d.port_id < self.out_count(
            d.c_id as int,
        )
    }

    pub open spec fn valid_load(self, e: ComponentIndex) -> bool {
        e.direction == Direction::Input && e.c_id < self.comp.len() && e.port_id < self.in_count(
            e.c_id as int,
        )
    }

    /// Every pin of the table is a pin of an instance, of the right
    /// direction, no pin drives two entries, and no pin is a load of two.
    pub open spec fn wf(self) -> bool {
        &&& self.comp.len() >= 1
        &&& self.generics.len() == self.comp.len()
        &&& forall|c: int|
            0 <= c < self.connections.len() ==> self.valid_driver((#[trigger] self.connections[c]).0)
        &&& forall|c: int, a: int|
            0 <= c < self.connections.len() && 0 <= a < self.connections[c].1.len()
                ==> self.valid_load(#[trigger] self.connections[c].1[a])
        &&& forall|c: int, d: int|
            0 <= c < d < self.connections.len() ==> self.connections[c].0 != self.connections[d].0
        &&& self.single_fed()
    }

    /// Whether no pin is a load of two entries of the table.
    pub open spec fn single_fed(self) -> bool {
        forall|c: int, a: int, d: int, b: int|
            #![trigger self.connections[c].1[a], self.connections[d].1[b]]
            0 <= c < self.connections.len() && 0 <= a < self.connections[c].1.len() && 0 <= d
                < self.connections.len() && 0 <= b < self.connections[d].1.len()
                && self.connections[c].1[a] == self.connections[d].1[b] ==> c == d
    }

    /// Whether the table has an entry for the driver `d`.
    pub open spec fn drives(self, d: ComponentIndex) -> bool {
        exists|c: int| 0 <= c < self.connections.len() && (#[trigger] self.connections[c]).0 == d
    }

    /// Whether the table says that `d` feeds `e`.
    pub open spec fn feeds(self, d: ComponentIndex, e: ComponentIndex) -> bool {
        exists|c: int|
            0 <= c < self.connections.len() && (#[trigger] self.connections[c]).0 == d
                && self.connections[c].1.contains(e)
    }

    /// Whether this is the definition that the body `b` compiles to.
    pub open spec fn compiles(self, reg: Seq<InfoModel>, b: BodyModel) -> bool {
        &&& self.wf()
        &&& self.comp.len() == b.insts.len() + 1
        &&& self.comp[0].0 == spec_id_of(reg, b.sig.name)
        &&& self.generics[0].0 == b.sig.inputs.len()
        &&& self.generics[0].1 == b.sig.outputs.len()
        &&& forall|l: int|
            1 <= l <= b.insts.len() ==> {
                &&& (#[trigger] self.comp[l]).0 == spec_id_of(reg, b.insts[l - 1].name)
                &&& spec_registered(reg, b.insts[l - 1].name)
            }
        &&& forall|l: int|
            1 <= l <= b.insts.len() ==> (#[trigger] self.generics[l]).0 == b.insts[l - 1].inputs.len()
                && self.generics[l].1 == b.insts[l - 1].outputs.len()
        &&& forall|d: ComponentIndex| self.drives(d) <==> b.drives(d)
        &&& forall|d: ComponentIndex, e: ComponentIndex| self.feeds(d, e) <==> b.feeds(d, e)
        &&& forall|c: int, i: int, j: int|
            0 <= c < self.connections.len() && 0 <= i < j < self.connections[c].1.len() 
                ==> self.connections[c].1[i] != self.connections[c].1[j]
        &&& forall|d1: ComponentIndex, d2: ComponentIndex, e: ComponentIndex|
            self.feeds(d1, e) && self.feeds(d2, e) ==> d1 == d2
    }
}

/// A compiled definition.
pub struct CompDefinition {
    comp: Vec<CompId>,
    connections: Vec<Connection>,
    generics: Vec<(usize, usize)>,
}

impl View for CompDefinition {
    type V = DefModel;

    closed spec fn view(&self) -> DefModel {
        DefModel {
            comp: self.comp@,
            generics: self.generics@,
            connections: connections_view(self.connections@),
        }
    }
}

/// Names joined with one name are joined with each other.
pub proof fn lemma_joined_transitive(
    groups: Seq<Seq<Seq<char>>>,
    a: Seq<char>,
    b: Seq<char>,
    c: Seq<char>,
)
    requires
        crate::assignments::spec_disjoint(groups),
        spec_joined(groups, a, b),
        spec_joined(groups, b, c),
    ensures
        spec_joined(groups, a, c),
{
    if a != b && b != c {
        let g = choose|g: int|
            crate::assignments::spec_in_group(groups, g, a) && crate::assignments::spec_in_group(
                groups,
                g,
                b,
            );
        let h = choose|h: int|
            crate::assignments::spec_in_group(groups, h, b) && crate::assignments::spec_in_group(
                groups,
                h,
                c,
            );
        assert(g == h);
        assert(crate::assignments::spec_in_group(groups, g, a) && crate::assignments::spec_in_group(
            groups,
            g,
            c,
        ));
    }
}

/// Whether `def` holds the connection table of the body `b`, made from the
/// lists of its pins and the groups of its assignments.
pub open spec fn spec_tabled(
    b: BodyModel,
    groups: Seq<Seq<Seq<char>>>,
    outs: Seq<ComponentIndex>,
    out_names: Seq<Seq<char>>,
    ins: Seq<ComponentIndex>,
    in_names: Seq<Seq<char>>,
    def: DefModel,
) -> bool {
    &&& spec_lists_pins(b.sig, b.insts, Direction::Output, outs, out_names)
    &&& spec_lists_pins(b.sig, b.insts, Direction::Input, ins, in_names)
    &&& crate::assignments::spec_disjoint(groups)
    &&& forall|x: Seq<char>, y: Seq<char>| #[trigger] spec_joined(groups, x, y) <==> b.same_signal(x, y)
    &&& !spec_has_conflict(groups, out_names)
    &&& def.connections == spec_table(groups, outs, out_names, ins, in_names, outs.len())
}

/// The number of the output pin behind the entry `c` of the table.
pub open spec fn spec_row_pin(
    groups: Seq<Seq<Seq<char>>>,
    outs: Seq<ComponentIndex>,
    out_names: Seq<Seq<char>>,
    ins: Seq<ComponentIndex>,
    in_names: Seq<Seq<char>>,
    c: int,
) -> int {
    choose|i: int|
        i < outs.len() && #[trigger] spec_row_of(
            groups,
            outs,
            out_names,
            ins,
            in_names,
            spec_table(groups, outs, out_names, ins, in_names, outs.len())[c],
            i,
        )
}

/// Each entry of the table belongs to an output pin that drives a signal,
/// and holds the input pins that the pin feeds, each once.
proof fn lemma_rows(
    b: BodyModel,
    groups: Seq<Seq<Seq<char>>>,
    outs: Seq<ComponentIndex>,
    out_names: Seq<Seq<char>>,
    ins: Seq<ComponentIndex>,
    in_names: Seq<Seq<char>>,
    def: DefModel,
    c: int,
)
    requires
        spec_tabled(b, groups, outs, out_names, ins, in_names, def),
        0 <= c < def.connections.len(),
    ensures
        b.drives(def.connections[c].0),
        forall|e: ComponentIndex| #[trigger] def.connections[c].1.contains(e) <==> b.feeds(def.connections[c].0, e),
        forall|i: int, j: int|
            0 <= i < j < def.connections[c].1.len() ==> def.connections[c].1[i]
                != def.connections[c].1[j],
{
    let table = def.connections;
    lemma_table_meaning(groups, outs, out_names, ins, in_names, outs.len());
    let i = spec_row_pin(groups, outs, out_names, ins, in_names, c);
    assert(spec_row_among(groups, outs, out_names, ins, in_names, table[c], outs.len() as int));
    assert(spec_row_of(groups, outs, out_names, ins, in_names, table[c], i));
    let signal = out_names[i];
    assert(spec_is_pin(b.sig, b.insts, outs[i]));
    lemma_loads_meaning(groups, ins, in_names, signal, ins.len());
    assert forall|e: ComponentIndex| #[trigger] table[c].1.contains(e) <==> b.feeds(table[c].0, e) by {
        if table[c].1.contains(e) {
            let j = choose|j: int|
                0 <= j < ins.len() && #[trigger] ins[j] == e && spec_joined(
                    groups,
                    signal,
                    in_names[j],
                );
            assert(spec_is_pin(b.sig, b.insts, ins[j]));
        }
        if b.feeds(table[c].0, e) {
            assert(ins.contains(e));
            let j = choose|j: int| 0 <= j < ins.len() && ins[j] == e;
            assert(spec_is_pin(b.sig, b.insts, ins[j]));
            assert(spec_joined(groups, signal, in_names[j]));
        }
    }
}

/// The table has an entry for each pin that drives a signal, and for no
/// other.
proof fn lemma_drivers(
    b: BodyModel,
    groups: Seq<Seq<Seq<char>>>,
    outs: Seq<ComponentIndex>,
    out_names: Seq<Seq<char>>,
    ins: Seq<ComponentIndex>,
    in_names: Seq<Seq<char>>,
    def: DefModel,
)
    requires
        spec_tabled(b, groups, outs, out_names, ins, in_names, def),
    ensures
        forall|d: ComponentIndex| def.drives(d) <==> b.drives(d),
        forall|c: int, d: int|
            0 <= c < d < def.connections.len() ==> def.connections[c].0 != def.connections[d].0,
{
    let table = def.connections;
    lemma_table_meaning(groups, outs, out_names, ins, in_names, outs.len());
    assert forall|d: ComponentIndex| def.drives(d) <==> b.drives(d) by {
        if def.drives(d) {
            let c = choose|c: int| 0 <= c < table.len() && (#[trigger] table[c]).0 == d;
            lemma_rows(b, groups, outs, out_names, ins, in_names, def, c);
        }
        if b.drives(d) {
            assert(outs.contains(d));
            let i = choose|i: int| 0 <= i < outs.len() && outs[i] == d;
            assert(spec_is_pin(b.sig, b.insts, outs[i]));
            assert(!spec_is_wildcard(out_names[i]));
            let c = choose|c: int|
                0 <= c < table.len() && #[trigger] spec_row_of(
                    groups,
                    outs,
                    out_names,
                    ins,
                    in_names,
                    table[c],
                    i,
                );
            assert(table[c].0 == d);
        }
    }
}

/// No two output pins drive one signal.
proof fn lemma_single_driver(
    b: BodyModel,
    groups: Seq<Seq<Seq<char>>>,
    outs: Seq<ComponentIndex>,
    out_names: Seq<Seq<char>>,
    ins: Seq<ComponentIndex>,
    in_names: Seq<Seq<char>>,
    def: DefModel,
)
    requires
        spec_tabled(b, groups, outs, out_names, ins, in_names, def),
    ensures
        forall|d1: ComponentIndex, d2: ComponentIndex| !b.double_driven(d1, d2),
{
    assert forall|d1: ComponentIndex, d2: ComponentIndex| !b.double_driven(d1, d2) by {
        if b.double_driven(d1, d2) {
            assert(outs.contains(d1));
            assert(outs.contains(d2));
            let i = choose|i: int| 0 <= i < outs.len() && outs[i] == d1;
            let k = choose|k: int| 0 <= k < outs.len() && outs[k] == d2;
            assert(spec_is_pin(b.sig, b.insts, outs[i]));
            assert(spec_is_pin(b.sig, b.insts, outs[k]));
            assert(spec_joined(groups, out_names[i], out_names[k]));
            assert(spec_conflict(groups, out_names, i, k));
        }
    }
}

/// What a connection table means in terms of the pins of the body.
pub proof fn lemma_compiled(
    b: BodyModel,
    groups: Seq<Seq<Seq<char>>>,
    outs: Seq<ComponentIndex>,
    out_names: Seq<Seq<char>>,
    ins: Seq<ComponentIndex>,
    in_names: Seq<Seq<char>>,
    def: DefModel,
)
    requires
        spec_tabled(b, groups, outs, out_names, ins, in_names, def),
    ensures
        forall|d: ComponentIndex| def.drives(d) <==> b.drives(d),
        forall|d: ComponentIndex, e: ComponentIndex| def.feeds(d, e) <==> b.feeds(d, e),
        forall|d1: ComponentIndex, d2: ComponentIndex| !b.double_driven(d1, d2),
        forall|c: int, d: int|
            0 <= c < d < def.connections.len() ==> def.connections[c].0 != def.connections[d].0,
        forall|c: int, i: int, j: int|
            0 <= c < def.connections.len() && 0 <= i < j < def.connections[c].1.len()
                ==> def.connections[c].1[i] != def.connections[c].1[j],
        forall|d1: ComponentIndex, d2: ComponentIndex, e: ComponentIndex|
            def.feeds(d1, e) && def.feeds(d2, e) ==> d1 == d2,
        forall|c: int|
            0 <= c < def.connections.len() ==> b.drives((#[trigger] def.connections[c]).0),
        forall|c: int, a: int|
            0 <= c < def.connections.len() && 0 <= a < def.connections[c].1.len() ==> b.is_pin(
                #[trigger] def.connections[c].1[a],
            ) && def.connections[c].1[a].direction == Direction::Input,
{
    let table = def.connections;
    lemma_drivers(b, groups, outs, out_names, ins, in_names, def);
    lemma_single_driver(b, groups, outs, out_names, ins, in_names, def);
    assert forall|c: int| 0 <= c < table.len() implies b.drives((#[trigger] table[c]).0) by {
        lemma_rows(b, groups, outs, out_names, ins, in_names, def, c);
    }
    assert forall|d: ComponentIndex, e: ComponentIndex| def.feeds(d, e) <==> b.feeds(d, e) by {
        if def.feeds(d, e) {
            let c = choose|c: int|
                0 <= c < table.len() && (#[trigger] table[c]).0 == d && table[c].1.contains(e);
            lemma_rows(b, groups, outs, out_names, ins, in_names, def, c);
        }
        if b.feeds(d, e) {
            assert(def.drives(d));
            let c = choose|c: int| 0 <= c < table.len() && (#[trigger] table[c]).0 == d;
            lemma_rows(b, groups, outs, out_names, ins, in_names, def, c);
            assert(table[c].1.contains(e));
        }
    }
    assert forall|c: int, i: int, j: int|
        0 <= c < table.len() && 0 <= i < j < table[c].1.len() implies table[c].1[i]
        != table[c].1[j] by {
        lemma_rows(b, groups, outs, out_names, ins, in_names, def, c);
    }
    assert forall|c: int, a: int| 0 <= c < table.len() && 0 <= a < table[c].1.len() implies b.is_pin(
        #[trigger] table[c].1[a],
    ) && table[c].1[a].direction == Direction::Input by {
        lemma_rows(b, groups, outs, out_names, ins, in_names, def, c);
        let e = table[c].1[a];
        assert(table[c].1.contains(e));
    }
    assert forall|d1: ComponentIndex, d2: ComponentIndex, e: ComponentIndex|
        def.feeds(d1, e) && def.feeds(d2, e) implies d1 == d2 by {
        assert(b.feeds(d1, e) && b.feeds(d2, e));
        if d1 != d2 {
            let x = b.pin_name(d1);
            let y = b.pin_name(d2);
            let z = b.pin_name(e);
            assert(spec_joined(groups, x, z));
            assert(spec_joined(groups, y, z));
            crate::assignments::lemma_joined_symmetric(groups, y, z);
            lemma_joined_transitive(groups, x, z, y);
            assert(b.double_driven(d1, d2));
        }
    }
}

/// The list of used names holds the names of the signals of the body.
proof fn lemma_used(
    b: BodyModel,
    groups: Seq<Seq<Seq<char>>>,
    outs: Seq<ComponentIndex>,
    out_names: Seq<Seq<char>>,
    ins: Seq<ComponentIndex>,
    in_names: Seq<Seq<char>>,
    name: Seq<char>,
)
    requires
        spec_lists_pins(b.sig, b.insts, Direction::Output, outs, out_names),
        spec_lists_pins(b.sig, b.insts, Direction::Input, ins, in_names),
        forall|a: Seq<char>|
            #[trigger] crate::assignments::spec_mentioned(groups, a) <==> spec_mentioned_by(
                Seq::empty(),
                b.lefts,
                b.rights,
                b.lefts.len(),
                a,
            ),
    ensures
        spec_used_names(out_names, in_names, groups).contains(name) <==> b.used(name),
{
    let flat = spec_flat(groups, groups.len());
    lemma_concat_names(out_names + in_names, flat, name);
    lemma_concat_names(out_names, in_names, name);
    lemma_flat_mentions(groups, groups.len(), name);
    if out_names.contains(name) {
        let i = choose|i: int| 0 <= i < out_names.len() && out_names[i] == name;
        assert(b.is_pin(outs[i]) && b.pin_name(outs[i]) == name);
    }
    if in_names.contains(name) {
        let i = choose|i: int| 0 <= i < in_names.len() && in_names[i] == name;
        assert(b.is_pin(ins[i]) && b.pin_name(ins[i]) == name);
    }
    if flat.contains(name) {
        let h = choose|h: int|
            0 <= h < groups.len() && crate::assignments::spec_in_group(groups, h, name);
        assert(crate::assignments::spec_in_group(groups, h, name));
        assert(crate::assignments::spec_mentioned(groups, name));
    }
    if crate::assignments::spec_mentioned(groups, name) {
        let h = choose|h: int| crate::assignments::spec_in_group(groups, h, name);
        assert(0 <= h < groups.len() && crate::assignments::spec_in_group(groups, h, name));
    }
    if exists|e: ComponentIndex| b.is_pin(e) && #[trigger] b.pin_name(e) == name {
        let e = choose|e: ComponentIndex| b.is_pin(e) && #[trigger] b.pin_name(e) == name;
        match e.direction {
            Direction::Output => {
                assert(outs.contains(e));
                let i = choose|i: int| 0 <= i < outs.len() && outs[i] == e;
                assert(out_names[i] == name);
            },
            Direction::Input => {
                assert(ins.contains(e));
                let i = choose|i: int| 0 <= i < ins.len() && ins[i] == e;
                assert(in_names[i] == name);
            },
        }
    }
}

/// Whether the body `body` of the component with the signature `sig`
/// compiles: no statement is at fault, no signal is an element of an array
/// of more than one dimension, no name is both an array and a signal of its
/// own, and no two output pins drive one signal.
pub open spec fn spec_compiles(reg: Seq<InfoModel>, sig: InfoModel, body: Seq<InfoModel>) -> bool {
    let b = spec_body(sig, body);
    &&& spec_faultless(reg, sig, body, body.len() as int)
    &&& !b.deep_array()
    &&& forall|bit: Seq<char>| !b.array_and_bit(bit)
    &&& forall|d1: ComponentIndex, d2: ComponentIndex| !b.double_driven(d1, d2)
}

/// Whether `e` says why the body does not compile: it names the first
/// statement at fault; or, no statement being at fault, an element of an
/// array of more than one dimension; or, none of these being there, a name
/// that is both an array and a signal of its own; or, with none of these
/// either, two output pins that drive one signal.
pub open spec fn spec_explains(
    reg: Seq<InfoModel>,
    sig: InfoModel,
    body: Seq<InfoModel>,
    e: CompileError,
) -> bool {
    let b = spec_body(sig, body);
    match e {
        CompileError::Statement { statement, fault } => {
            &&& statement < body.len()
            &&& spec_statement_fault(reg, sig, body[statement as int]) == Some(fault)
            &&& spec_faultless(reg, sig, body, statement as int)
        },
        CompileError::UnsupportedArray { name } => {
            &&& spec_faultless(reg, sig, body, body.len() as int)
            &&& b.used(name@)
            &&& spec_separators(name@) >= 2
        },
        CompileError::ArrayUsedAsBit { name } => {
            &&& spec_faultless(reg, sig, body, body.len() as int)
            &&& !b.deep_array()
            &&& b.array_and_bit(name@)
        },
        CompileError::MultipleDrivers { signal, first, second } => {
            &&& spec_faultless(reg, sig, body, body.len() as int)
            &&& !b.deep_array()
            &&& forall|bit: Seq<char>| !b.array_and_bit(bit)
            &&& b.double_driven(first, second)
            &&& signal@ == b.pin_name(first)
        },
    }
}

/// A body that compiles has no error, and a body with an error does not
/// compile.
pub proof fn lemma_error_xor_compiles(
    reg: Seq<InfoModel>,
    sig: InfoModel,
    body: Seq<InfoModel>,
    e: CompileError,
)
    requires
        spec_explains(reg, sig, body, e),
    ensures
        !spec_compiles(reg, sig, body),
{
    let b = spec_body(sig, body);
    match e {
        CompileError::Statement { statement, fault } => {
            assert(spec_statement_fault(reg, sig, body[statement as int]) is Some);
        },
        CompileError::UnsupportedArray { name } => {
            assert(b.used(name@) && spec_separators(name@) >= 2);
        },
        CompileError::ArrayUsedAsBit { name } => {},
        CompileError::MultipleDrivers { signal, first, second } => {},
    }
}

impl CompDefinition {
    /// The kinds of the instances, the boundary first.
    pub fn comp(&self) -> (r: &Vec<CompId>)
        ensures
            r@ == self@.comp,
    {
        &self.comp
    }

    /// For each instance how many inputs and outputs it is wired with.
    pub fn generics(&self) -> (r: &Vec<(usize, usize)>)
        ensures
            r@ == self@.generics,
    {
        &self.generics
    }

    /// The connection table.
    pub fn connections(&self) -> (r: &Vec<Connection>)
        ensures
            connections_view(r@) == self@.connections,
    {
        &self.connections
    }

    /// Compiles the body `other` of the component with the signature
    /// `c_zero`, given the signatures of all components.
    ///
    /// The statements are checked in order, and the first at fault is
    /// reported. Then the names are checked for arrays of more than one
    /// dimension, and for names used both as an array and as a signal of
    /// their own. Then each signal is given the pins on it, a signal being a
    /// class of names that the assignments have made equivalent, and two
    /// output pins on one signal are an error. Pins on the wildcard are
    /// connected to nothing.
    pub fn new(components: &Vec<CompInfo>, c_zero: &CompInfo, other: &[CompInfo]) -> (r: Result<
        CompDefinition,
        CompileError,
    >)
        requires
            spec_registered(registry_view(components@), c_zero@.name),
        ensures
            match r {
                Ok(def) => {
                    &&& spec_compiles(registry_view(components@), c_zero@, body_view(other@))
                    &&& def@.compiles(
                        registry_view(components@),
                        spec_body(c_zero@, body_view(other@)),
                    )
                },
                Err(e) => spec_explains(registry_view(components@), c_zero@, body_view(other@), e),
            },
    {
        let ghost reg = registry_view(components@);
        let ghost sig = c_zero@;
        let ghost body = body_view(other@);
        let ghost b = spec_body(sig, body);
        let s = match scan_statements(components, c_zero, other) {
            Ok(s) => s,
            Err(e) => {
                return Err(e);
            },
        };
        let ghost outs = s.outs@;
        let ghost out_names = names_view(s.out_names@);
        let ghost ins = s.ins@;
        let ghost in_names = names_view(s.in_names@);
        let mut assign = Assignments::new();
        let pairs = CompInfo::new(
            String::from_str("actually, I'm just an assignment"),
            copy_names(&s.lefts),
            copy_names(&s.rights),
        );
        assert(pairs@.inputs == b.lefts && pairs@.outputs == b.rights);
        assert(pairs@.inputs.len() == s.lefts@.len());
        assert(pairs@.outputs.len() == s.rights@.len());
        match assign.add(&pairs) {
            Ok(_) => {},
            Err(_) => {
                assert(false);
            },
        }
        let ghost groups = assign@;
        let used = used_names(&s, &assign);
        proof {
            assert forall|name: Seq<char>| #[trigger]
                names_view(used@).contains(name) <==> b.used(name) by {
                lemma_used(b, groups, outs, out_names, ins, in_names, name);
            }
        }
        match check_arrays(&used) {
            Ok(_) => {},
            Err(e) => {
                proof {
                    match &e {
                        CompileError::ArrayUsedAsBit { name } => {
                            let list = names_view(used@);
                            let i = choose|i: int|
                                0 <= i < list.len() && spec_separators(#[trigger] list[i]) == 1
                                    && spec_base(list[i]) == name@;
                            assert(list.contains(list[i]));
                            assert(b.used(list[i]));
                            lemma_no_deep_array(b, list);
                        },
                        _ => {},
                    }
                }
                return Err(e);
            },
        }
        proof {
            let list = names_view(used@);
            lemma_no_deep_array(b, list);
            assert forall|bit: Seq<char>| !b.array_and_bit(bit) by {
                if b.array_and_bit(bit) {
                    let arr = choose|arr: Seq<char>|
                        #[trigger] b.used(arr) && spec_separators(arr) == 1 && spec_base(arr)
                            == bit;
                    assert(list.contains(arr));
                    let i = choose|i: int| 0 <= i < list.len() && list[i] == arr;
                    assert(spec_separators(list[i]) == 1 && spec_base(list[i]) == bit);
                    assert(spec_is_array_and_bit(list, bit));
                }
            }
        }
        let table = match connect(&s, &assign) {
            Ok(table) => table,
            Err(e) => {
                proof {
                    match &e {
                        CompileError::MultipleDrivers { signal, first, second } => {
                            let (i, k) = choose|i: int, k: int|
                                {
                                    &&& #[trigger] spec_conflict(groups, out_names, i, k)
                                    &&& first == outs[i]
                                    &&& second == outs[k]
                                    &&& signal@ == out_names[i]
                                };
                            assert(spec_is_pin(b.sig, b.insts, outs[i]));
                            assert(spec_is_pin(b.sig, b.insts, outs[k]));
                            assert(outs[i] != outs[k]);
                            assert(b.same_signal(out_names[i], out_names[k]));
                        },
                        _ => {},
                    }
                }
                return Err(e);
            },
        };
        let def = CompDefinition { comp: s.comp, connections: table, generics: s.generics };
        proof {
            lemma_compiled(b, groups, outs, out_names, ins, in_names, def@);
            assert(def@.wf()) by {
                assert forall|c: int| 0 <= c < def@.connections.len() implies def@.valid_driver(
                    (#[trigger] def@.connections[c]).0,
                ) by {
                    assert(b.drives(def@.connections[c].0));
                }
                let t = def@.connections;
                assert forall|c: int, a: int, d: int, e: int|
                    #![trigger t[c].1[a], t[d].1[e]]
                    0 <= c < t.len() && 0 <= a < t[c].1.len() && 0 <= d < t.len() && 0 <= e
                        < t[d].1.len() && t[c].1[a] == t[d].1[e] implies c == d by {
                    let x = t[c].1[a];
                    assert(t[c].1.contains(x));
                    assert(t[d].1.contains(x));
                    assert(def@.feeds(t[c].0, x));
                    assert(def@.feeds(t[d].0, x));
                }
            }
        }
        Ok(def)
    }
}

/// A list without an element of a deep array, that holds the names of the
/// signals of a body, shows that the body has none.
proof fn lemma_no_deep_array(b: BodyModel, list: Seq<Seq<char>>)
    requires
        forall|name: Seq<char>| #[trigger] list.contains(name) <==> b.used(name),
        !spec_has_deep_array(list),
    ensures
        !b.deep_array(),
{
    if b.deep_array() {
        let name = choose|name: Seq<char>| #[trigger] b.used(name) && spec_separators(name) >= 2;
        assert(list.contains(name));
        let i = choose|i: int| 0 <= i < list.len() && list[i] == name;
        assert(spec_separators(list[i]) >= 2);
    }
}

} // verus!
