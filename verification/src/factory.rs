//! The component factory: the registry of signatures and compiled
//! definitions, and the instantiation of a definition as a network.

use crate::bit::Bit;
use crate::component::{
    spec_no_fanout, CompIo, Component, ComponentIndex, ConstantBit, Index, Nand, Network, Stdin,
    Stdout,
};
use crate::info::{CompInfo, DuplicatePort};
use crate::model::{
    spec_unknown, ComponentModel, InfoModel, NetModel, SlotModel, StdinModel, StdoutModel,
};
use crate::names::same_name;
use crate::parser::{
    body_view, connections_view, find_component, is_builtin, lemma_id_unique, registry_view,
    spec_body, spec_compiles, spec_explains, spec_faultless, spec_id_of, spec_instances,
    spec_is_builtin, spec_is_id, spec_registered, spec_statement_fault, CompDefinition, CompId,
    CompileError, DefModel,
};
use crate::stream::{RcBufRead, RcWrite};
use std::rc::Rc;
use vstd::prelude::*;

verus! {

/// The factory's state: the signatures by number of kind, the primitives
/// first; the compiled definition of each kind that has one; for each kind a
/// rank that is higher than that of every kind it instantiates; and the
/// streams that new bridges are given.
pub struct FactoryModel {
    pub components: Seq<InfoModel>,
    pub defs: Seq<Option<DefModel>>,
    pub rank: Seq<usize>,
    pub stdin: Option<RcBufRead>,
    pub stdout: Option<RcWrite>,
}

/// How many primitives there are.
pub open spec fn spec_primitives() -> int {
    4
}

/// The input pin that the load `e` stands for.
pub open spec fn spec_target(e: ComponentIndex) -> Index {
    Index { comp_id: e.c_id, input_id: e.port_id }
}

/// The input pins that the loads `to` stand for.
pub open spec fn spec_targets(to: Seq<ComponentIndex>) -> Seq<Index> {
    Seq::new(to.len(), |a: int| spec_target(to[a]))
}

/// The fan-out of the output pin `o` of the instance `l` according to the
/// first `n` entries of the table: the loads of the entries of that pin.
pub open spec fn spec_port_fanout(
    table: Seq<(ComponentIndex, Seq<ComponentIndex>)>,
    l: int,
    o: int,
    n: nat,
) -> Seq<Index>
    decreases n,
{
    if n == 0 {
        Seq::empty()
    } else {
        let before = spec_port_fanout(table, l, o, (n - 1) as nat);
        let (from, to) = table[n - 1];
        if from.c_id == l && from.port_id == o {
            before + spec_targets(to)
        } else {
            before
        }
    }
}

/// The fan-out lists of the instance `l`, with `outs` output pins,
/// according to the first `n` entries of the table.
pub open spec fn spec_fanout(
    table: Seq<(ComponentIndex, Seq<ComponentIndex>)>,
    l: int,
    outs: int,
    n: nat,
) -> Seq<Seq<Index>> {
    Seq::new(outs as nat, |o: int| spec_port_fanout(table, l, o, n))
}

/// The new primitive called `name` with `inputs` inputs and `outputs`
/// outputs, if there is one. A gate has one output and any number of inputs.
/// A constant source has three outputs and no input. An input bridge has one
/// input and nine outputs. An output bridge has nine inputs and no output.
pub open spec fn spec_builtin(
    name: Seq<char>,
    inputs: usize,
    outputs: usize,
    stdin: Option<RcBufRead>,
    stdout: Option<RcWrite>,
) -> Option<ComponentModel> {
    if name == "Nand"@ && outputs == 1 {
        Some(ComponentModel::Nand { num_inputs: inputs as nat })
    } else if name == "ConstantBit"@ && inputs == 0 && outputs == 3 {
        Some(ComponentModel::ConstantBit)
    } else if name == "Stdin"@ && inputs == 1 && outputs == 9 {
        Some(
            ComponentModel::Stdin(
                StdinModel {
                    last_clk: Bit::X,
                    last_out: spec_unknown(8),
                    eof: Bit::X,
                    source: stdin,
                },
            ),
        )
    } else if name == "Stdout"@ && inputs == 9 && outputs == 0 {
        Some(ComponentModel::Stdout(StdoutModel { last_clk: Bit::X, sink: stdout }))
    } else {
        None
    }
}

impl FactoryModel {
    /// Whether the instance `l` in the definition of the kind `id` is in
    /// order: its kind is registered, and if it is no primitive, it has a
    /// lower rank and the ports that it is wired with.
    pub open spec fn child_wf(self, id: int, l: int) -> bool {
        let def = self.defs[id]->0;
        let k = def.comp[l].0 as int;
        &&& k < self.components.len()
        &&& k >= spec_primitives() ==> {
            &&& self.rank[k] < self.rank[id]
            &&& def.generics[l].0 == self.components[k].inputs.len()
            &&& def.generics[l].1 == self.components[k].outputs.len()
        }
    }

    /// Whether the definition of the kind `id` is in order.
    pub open spec fn def_wf(self, id: int) -> bool {
        let def = self.defs[id]->0;
        &&& self.defs[id] is Some
        &&& def.wf()
        &&& def.generics[0].0 == self.components[id].inputs.len()
        &&& def.generics[0].1 == self.components[id].outputs.len()
        &&& forall|l: int| 1 <= l < def.comp.len() ==> self.child_wf(id, l)
    }

    /// The primitives come first, under their names; no two kinds share a
    /// name; every other kind has a definition that is in order.
    pub open spec fn wf(self) -> bool {
        &&& self.components.len() >= spec_primitives()
        &&& self.defs.len() == self.components.len()
        &&& self.rank.len() == self.components.len()
        &&& self.components[0].name == "Nand"@
        &&& self.components[1].name == "ConstantBit"@
        &&& self.components[2].name == "Stdin"@
        &&& self.components[3].name == "Stdout"@
        &&& forall|i: int, j: int|
            0 <= i < j < self.components.len() ==> self.components[i].name
                != self.components[j].name
        &&& forall|id: int|
            spec_primitives() <= id < self.components.len() ==> #[trigger] self.def_wf(id)
    }

    /// The component that the instance `l` in the definition of the kind
    /// `id` is built as, if it can be built: a primitive in its first state,
    /// or the network of its kind.
    pub open spec fn child(self, id: int, l: int) -> Option<ComponentModel>
        decreases self.rank[id], 0nat,
    {
        let def = self.defs[id]->0;
        let k = def.comp[l].0 as int;
        let name = self.components[k].name;
        if spec_is_builtin(name) {
            spec_builtin(name, def.generics[l].0, def.generics[l].1, self.stdin, self.stdout)
        } else if self.rank[k] < self.rank[id] {
            match self.instance(k) {
                Some(n) => Some(ComponentModel::Network(n)),
                None => None,
            }
        } else {
            None
        }
    }

    /// The slot number `l` of the network of the kind `id`: the component
    /// with all pins unknown, wired as the definition's table says.
    pub open spec fn slot(self, id: int, l: int, comp: ComponentModel) -> SlotModel {
        let def = self.defs[id]->0;
        SlotModel {
            comp,
            input: spec_unknown(def.in_count(l) as nat),
            output: spec_unknown(def.out_count(l) as nat),
            connections: spec_fanout(def.connections, l, def.out_count(l), def.connections.len()),
            output_changed: true,
        }
    }

    /// The network that the kind `id` is instantiated as, if it can be: all
    /// of its instances can be built.
    pub open spec fn instance(self, id: int) -> Option<NetModel>
        decreases self.rank[id], 1nat,
    {
        let def = self.defs[id]->0;
        if forall|l: int| #![trigger def.comp[l]] 1 <= l < def.comp.len() ==> self.child(id, l) is Some {
            Some(
                NetModel::assemble(
                    self.components[id],
                    Seq::new(
                        def.comp.len(),
                        |l: int|
                            self.slot(
                                id,
                                l,
                                if l == 0 {
                                    ComponentModel::Nand { num_inputs: 0 }
                                } else {
                                    self.child(id, l)->0
                                },
                            ),
                    ),
                ),
            )
        } else {
            None
        }
    }
}

/// Why a component cannot be instantiated.
#[derive(Debug, Copy, Clone, PartialEq, Eq, Structural)]
pub enum InstantiateError {
    /// No definition of that name is registered.
    UnknownComponent,
    /// A primitive of the kind `kind` is wired with numbers of inputs and
    /// outputs that it cannot have.
    BuiltinArity { kind: CompId, inputs: usize, outputs: usize },
}

impl FactoryModel {
    /// Why the instance `l` in the definition of the kind `id` cannot be
    /// built, if it cannot: it is a primitive with ports that it cannot
    /// have, or a network in which an instance cannot be built.
    pub open spec fn child_fault(self, id: int, l: int) -> Option<InstantiateError>
        decreases self.rank[id], 0nat, 0nat,
    {
        let def = self.defs[id]->0;
        let k = def.comp[l].0 as int;
        let name = self.components[k].name;
        if spec_is_builtin(name) {
            if spec_builtin(name, def.generics[l].0, def.generics[l].1, self.stdin, self.stdout)
                is None {
                Some(
                    InstantiateError::BuiltinArity {
                        kind: def.comp[l],
                        inputs: def.generics[l].0,
                        outputs: def.generics[l].1,
                    },
                )
            } else {
                None
            }
        } else if self.rank[k] < self.rank[id] {
            self.fault(k)
        } else {
            None
        }
    }

    /// Why the first of the instances 1 to `n - 1` in the definition of the
    /// kind `id` that cannot be built cannot be built.
    pub open spec fn fault_among(self, id: int, n: nat) -> Option<InstantiateError>
        decreases self.rank[id], 1nat, n,
    {
        if n <= 1 {
            None
        } else {
            match self.fault_among(id, (n - 1) as nat) {
                Some(e) => Some(e),
                None => self.child_fault(id, n - 1),
            }
        }
    }

    /// Why the kind `id` cannot be instantiated, if it cannot: the reason
    /// of the first of its instances that cannot be built, the instances of
    /// an instance taken before the instances after it.
    pub open spec fn fault(self, id: int) -> Option<InstantiateError>
        decreases self.rank[id], 2nat, 0nat,
    {
        self.fault_among(id, self.defs[id]->0.comp.len())
    }

    /// A fault among the first instances is the fault among more.
    pub proof fn lemma_fault_stays(self, id: int, n: nat, m: nat)
        requires
            n <= m,
            self.fault_among(id, n) is Some,
        ensures
            self.fault_among(id, m) == self.fault_among(id, n),
        decreases m - n,
    {
        if n < m {
            self.lemma_fault_stays(id, n, (m - 1) as nat);
        }
    }
}

/// Every pin in a fan-out list made from a table in order is an input pin
/// of an instance.
pub proof fn lemma_fanout_targets(def: DefModel, l: int, o: int, n: nat)
    requires
        def.wf(),
        n <= def.connections.len(),
    ensures
        forall|j: int|
            0 <= j < spec_port_fanout(def.connections, l, o, n).len() ==> {
                let t = #[trigger] spec_port_fanout(def.connections, l, o, n)[j];
                t.comp_id < def.comp.len() && t.input_id < def.in_count(t.comp_id as int)
            },
    decreases n,
{
    if n > 0 {
        lemma_fanout_targets(def, l, o, (n - 1) as nat);
        let before = spec_port_fanout(def.connections, l, o, (n - 1) as nat);
        let list = spec_port_fanout(def.connections, l, o, n);
        let (from, to) = def.connections[n - 1];
        assert forall|j: int| 0 <= j < list.len() implies {
            let t = #[trigger] list[j];
            t.comp_id < def.comp.len() && t.input_id < def.in_count(t.comp_id as int)
        } by {
            if j < before.len() {
                assert(list[j] == before[j]);
            } else {
                let a = j - before.len();
                assert(list[j] == spec_target(to[a]));
                assert(def.valid_load(def.connections[n - 1].1[a]));
            }
        }
    }
}

/// Every pin in a fan-out list made from a table is a load of an entry of
/// the pin that the list belongs to.
pub proof fn lemma_fanout_source(def: DefModel, l: int, o: int, n: nat, j: int)
    requires
        n <= def.connections.len(),
        0 <= j < spec_port_fanout(def.connections, l, o, n).len(),
    ensures
        exists|c: int, a: int|
            #![trigger def.connections[c].1[a]]
            0 <= c < n && def.connections[c].0.c_id == l && def.connections[c].0.port_id == o && 0
                <= a < def.connections[c].1.len() && spec_target(def.connections[c].1[a])
                == spec_port_fanout(def.connections, l, o, n)[j],
    decreases n,
{
    if n > 0 {
        let before = spec_port_fanout(def.connections, l, o, (n - 1) as nat);
        let (from, to) = def.connections[n - 1];
        if j < before.len() {
            lemma_fanout_source(def, l, o, (n - 1) as nat, j);
            let (c, a) = choose|c: int, a: int|
                #![trigger def.connections[c].1[a]]
                0 <= c < n - 1 && def.connections[c].0.c_id == l && def.connections[c].0.port_id
                    == o && 0 <= a < def.connections[c].1.len() && spec_target(
                    def.connections[c].1[a],
                ) == before[j];
            assert(0 <= c < n && spec_target(def.connections[c].1[a]) == spec_port_fanout(
                def.connections,
                l,
                o,
                n,
            )[j]);
        } else {
            let a = j - before.len();
            assert(spec_target(def.connections[n - 1].1[a]) == spec_port_fanout(
                def.connections,
                l,
                o,
                n,
            )[j]);
        }
    }
}

impl FactoryModel {
    /// Two instances of one kind in a definition, wired with the same
    /// numbers of ports, are built as the same component, each in a slot of
    /// its own: each holds a network of its own in the state of a new one.
    pub proof fn lemma_call_sites(self, id: int, l1: int, l2: int)
        requires
            self.instance(id) is Some,
            1 <= l1 < self.defs[id]->0.comp.len(),
            1 <= l2 < self.defs[id]->0.comp.len(),
            self.defs[id]->0.comp[l1] == self.defs[id]->0.comp[l2],
            self.defs[id]->0.generics[l1] == self.defs[id]->0.generics[l2],
        ensures
            self.child(id, l1) is Some,
            self.child(id, l1) == self.child(id, l2),
            self.instance(id)->0.slots[l1].comp == self.child(id, l1)->0,
            self.instance(id)->0.slots[l2].comp == self.child(id, l2)->0,
    {
        let def = self.defs[id]->0;
        if forall|l: int| #![trigger def.comp[l]] 1 <= l < def.comp.len() ==> self.child(id, l) is Some {
        }
    }

    /// In the network of a kind each pin is fed by one output at most: the
    /// compiler lets no signal have two drivers.
    pub proof fn lemma_instance_single_fed(self, id: int)
        requires
            self.wf(),
            spec_primitives() <= id < self.components.len(),
            self.instance(id) is Some,
        ensures
            self.instance(id)->0.single_fed(),
    {
        let def = self.defs[id]->0;
        let net = self.instance(id)->0;
        let table = def.connections;
        assert(self.def_wf(id));
        if forall|l: int| #![trigger def.comp[l]] 1 <= l < def.comp.len() ==> self.child(id, l) is Some {
        }
        assert forall|c1: int, o1: int, k1: int, c2: int, o2: int, k2: int|
            #![trigger net.connections[c1][o1][k1], net.connections[c2][o2][k2]]
            0 <= c1 < net.connections.len() && 0 <= o1 < net.connections[c1].len() && 0 <= k1
                < net.connections[c1][o1].len() && 0 <= c2 < net.connections.len() && 0 <= o2
                < net.connections[c2].len() && 0 <= k2 < net.connections[c2][o2].len()
                && net.connections[c1][o1][k1] == net.connections[c2][o2][k2] implies c1 == c2
            && o1 == o2 by {
            assert(net.connections[c1] == net.slots[c1].connections);
            assert(net.connections[c2] == net.slots[c2].connections);
            assert(net.connections[c1][o1] == spec_port_fanout(table, c1, o1, table.len()));
            assert(net.connections[c2][o2] == spec_port_fanout(table, c2, o2, table.len()));
            lemma_fanout_source(def, c1, o1, table.len(), k1);
            lemma_fanout_source(def, c2, o2, table.len(), k2);
            let (e1, a1) = choose|c: int, a: int|
                #![trigger def.connections[c].1[a]]
                0 <= c < table.len() && def.connections[c].0.c_id == c1
                    && def.connections[c].0.port_id == o1 && 0 <= a < def.connections[c].1.len()
                    && spec_target(def.connections[c].1[a]) == spec_port_fanout(
                    def.connections,
                    c1,
                    o1,
                    table.len(),
                )[k1];
            let (e2, a2) = choose|c: int, a: int|
                #![trigger def.connections[c].1[a]]
                0 <= c < table.len() && def.connections[c].0.c_id == c2
                    && def.connections[c].0.port_id == o2 && 0 <= a < def.connections[c].1.len()
                    && spec_target(def.connections[c].1[a]) == spec_port_fanout(
                    def.connections,
                    c2,
                    o2,
                    table.len(),
                )[k2];
            let x = table[e1].1[a1];
            let y = table[e2].1[a2];
            assert(def.valid_load(x));
            assert(def.valid_load(y));
            assert(x == y);
            assert(e1 == e2);
        }
    }
}

/// Appends to the fan-out lists of `slots` what the table of `def` says.
fn wire(slots: &mut Vec<CompIo>, def: &CompDefinition)
    requires
        def@.wf(),
        old(slots)@.len() == def@.comp.len(),
        forall|l: int|
            0 <= l < old(slots)@.len() ==> (#[trigger] old(slots)@[l])@.connections
                == spec_no_fanout(def@.out_count(l) as nat),
    ensures
        final(slots)@.len() == old(slots)@.len(),
        forall|l: int|
            0 <= l < old(slots)@.len() ==> (#[trigger] final(slots)@[l])@ == (SlotModel {
                connections: spec_fanout(
                    def@.connections,
                    l,
                    def@.out_count(l),
                    def@.connections.len(),
                ),
                ..old(slots)@[l]@
            }),
        forall|l: int|
            0 <= l < old(slots)@.len() ==> (#[trigger] final(slots)@[l]).spec_comp() == old(
                slots,
            )@[l].spec_comp(),
{
    let table = def.connections();
    let ghost conns = def@.connections;
    let n = table.len();
    let mut c: usize = 0;
    proof {
        assert forall|l: int| 0 <= l < slots@.len() implies (#[trigger] slots@[l])@ == (SlotModel {
            connections: spec_fanout(conns, l, def@.out_count(l), 0),
            ..old(slots)@[l]@
        }) by {
            assert(spec_fanout(conns, l, def@.out_count(l), 0) =~= spec_no_fanout(
                def@.out_count(l) as nat,
            ));
        }
    }
    while c < n
        invariant
            c <= n,
            n == table@.len(),
            conns == connections_view(table@),
            conns == def@.connections,
            def@.wf(),
            slots@.len() == old(slots)@.len(),
            slots@.len() == def@.comp.len(),
            forall|l: int|
                0 <= l < slots@.len() ==> (#[trigger] slots@[l])@ == (SlotModel {
                    connections: spec_fanout(conns, l, def@.out_count(l), c as nat),
                    ..old(slots)@[l]@
                }),
            forall|l: int|
                0 <= l < slots@.len() ==> (#[trigger] slots@[l]).spec_comp() == old(
                    slots,
                )@[l].spec_comp(),
        decreases n - c,
    {
        let from = table[c].from;
        assert(conns[c as int] == (table@[c as int].from, table@[c as int].to@));
        assert(def@.valid_driver(conns[c as int].0));
        let ghost to = table@[c as int].to@;
        let ghost start = slots@;
        let m = table[c].to.len();
        let mut a: usize = 0;
        proof {
            let first = start[from.c_id as int]@.connections;
            assert(first == spec_fanout(conns, from.c_id as int, def@.out_count(from.c_id as int), c as nat));
            assert(spec_targets(to).take(0) =~= Seq::<Index>::empty());
            assert(first.update(
                from.port_id as int,
                first[from.port_id as int] + spec_targets(to).take(0),
            ) =~= first);
        }
        while a < m
            invariant
                a <= m,
                c < n,
                n == table@.len(),
                m == to.len(),
                to == table@[c as int].to@,
                from == table@[c as int].from,
                from.c_id < slots@.len(),
                from.port_id < def@.out_count(from.c_id as int),
                slots@.len() == start.len(),
                forall|l: int| 0 <= l < slots@.len() && l != from.c_id ==> slots@[l] == start[l],
                slots@[from.c_id as int]@ == (SlotModel {
                    connections: start[from.c_id as int]@.connections.update(
                        from.port_id as int,
                        start[from.c_id as int]@.connections[from.port_id as int] + spec_targets(
                            to,
                        ).take(a as int),
                    ),
                    ..start[from.c_id as int]@
                }),
                slots@[from.c_id as int].spec_comp() == start[from.c_id as int].spec_comp(),
                start[from.c_id as int]@.connections.len() == def@.out_count(from.c_id as int),
            decreases m - a,
        {
            let e = table[c].to[a];
            let ghost before = slots@[from.c_id as int]@;
            slots[from.c_id].add_connection(from.port_id, Index::new(e.c_id, e.port_id));
            a += 1;
            proof {
                let list = start[from.c_id as int]@.connections[from.port_id as int];
                assert(spec_targets(to).take(a as int) =~= spec_targets(to).take(a - 1).push(
                    spec_target(e),
                ));
                assert(list + spec_targets(to).take(a as int) =~= (list + spec_targets(to).take(
                    a - 1,
                )).push(spec_target(e)));
                assert(slots@[from.c_id as int]@.connections =~= start[from.c_id as int]@.connections.update(
                    from.port_id as int,
                    list + spec_targets(to).take(a as int),
                ));
            }
        }
        c += 1;
        proof {
            assert forall|l: int| 0 <= l < slots@.len() implies (#[trigger] slots@[l]).spec_comp()
                == old(slots)@[l].spec_comp() by {
                if l != from.c_id {
                    assert(slots@[l] == start[l]);
                }
                assert(start[l].spec_comp() == old(slots)@[l].spec_comp());
            }
            assert(spec_targets(to).take(m as int) =~= spec_targets(to));
            assert forall|l: int| 0 <= l < slots@.len() implies (#[trigger] slots@[l])@ == (SlotModel {
                connections: spec_fanout(conns, l, def@.out_count(l), c as nat),
                ..old(slots)@[l]@
            }) by {
                let now = spec_fanout(conns, l, def@.out_count(l), c as nat);
                let was = spec_fanout(conns, l, def@.out_count(l), (c - 1) as nat);
                assert(start[l]@.connections == was);
                if l != from.c_id {
                    assert(slots@[l] == start[l]);
                    assert(now =~= was);
                } else {
                    assert(now =~= was.update(
                        from.port_id as int,
                        was[from.port_id as int] + spec_targets(to),
                    ));
                }
            }
        }
    }
}

/// The registry of components: the signature of each kind, the compiled
/// definition of each kind that is no primitive, and the streams that new
/// bridges are given.
pub struct ComponentFactory {
    components: Vec<CompInfo>,
    comp_def: Vec<Option<CompDefinition>>,
    rank: Vec<usize>,
    stdin_bufread: Option<RcBufRead>,
    stdout_bufwrite: Option<RcWrite>,
}

/// The definitions as models.
pub open spec fn defs_view(defs: Seq<Option<CompDefinition>>) -> Seq<Option<DefModel>> {
    Seq::new(
        defs.len(),
        |i: int|
            match defs[i] {
                Some(d) => Some(d@),
                None => None,
            },
    )
}

impl View for ComponentFactory {
    type V = FactoryModel;

    closed spec fn view(&self) -> FactoryModel {
        FactoryModel {
            components: registry_view(self.components@),
            defs: defs_view(self.comp_def@),
            rank: self.rank@,
            stdin: self.stdin_bufread,
            stdout: self.stdout_bufwrite,
        }
    }
}

/// The names of the primitives differ from each other.
pub proof fn lemma_builtin_names()
    ensures
        "Nand"@ != "ConstantBit"@,
        "Nand"@ != "Stdin"@,
        "Nand"@ != "Stdout"@,
        "ConstantBit"@ != "Stdin"@,
        "ConstantBit"@ != "Stdout"@,
        "Stdin"@ != "Stdout"@,
{
    reveal_strlit("Nand");
    reveal_strlit("ConstantBit");
    reveal_strlit("Stdin");
    reveal_strlit("Stdout");
    assert("Nand"@.len() == 4);
    assert("ConstantBit"@.len() == 11);
    assert("Stdin"@.len() == 5);
    assert("Stdout"@.len() == 6);
}

impl FactoryModel {
    /// The kinds with the names of primitives are the first four.
    pub proof fn lemma_builtin_kinds(self, k: int)
        requires
            self.wf(),
            0 <= k < self.components.len(),
        ensures
            spec_is_builtin(self.components[k].name) <==> k < spec_primitives(),
    {
        lemma_builtin_names();
        if k >= 4 {
            assert(self.components[0].name != self.components[k].name);
            assert(self.components[1].name != self.components[k].name);
            assert(self.components[2].name != self.components[k].name);
            assert(self.components[3].name != self.components[k].name);
        }
    }
}

/// Appends the signatures of the primitives, under their names and without
/// port names: a primitive takes the ports that it is wired with.
pub fn insert_special_components(components: &mut Vec<CompInfo>)
    ensures
        registry_view(final(components)@) == registry_view(old(components)@) + seq![
            InfoModel { name: "Nand"@, inputs: Seq::empty(), outputs: Seq::empty() },
            InfoModel { name: "ConstantBit"@, inputs: Seq::empty(), outputs: Seq::empty() },
            InfoModel { name: "Stdin"@, inputs: Seq::empty(), outputs: Seq::empty() },
            InfoModel { name: "Stdout"@, inputs: Seq::empty(), outputs: Seq::empty() },
        ],
{
    let ghost before = registry_view(components@);
    components.push(bare_signature("Nand"));
    components.push(bare_signature("ConstantBit"));
    components.push(bare_signature("Stdin"));
    components.push(bare_signature("Stdout"));
    assert(registry_view(components@) =~= before + seq![
        InfoModel { name: "Nand"@, inputs: Seq::empty(), outputs: Seq::empty() },
        InfoModel { name: "ConstantBit"@, inputs: Seq::empty(), outputs: Seq::empty() },
        InfoModel { name: "Stdin"@, inputs: Seq::empty(), outputs: Seq::empty() },
        InfoModel { name: "Stdout"@, inputs: Seq::empty(), outputs: Seq::empty() },
    ]);
}

fn bare_signature(name: &str) -> (r: CompInfo)
    ensures
        r@ == (InfoModel { name: name@, inputs: Seq::empty(), outputs: Seq::empty() }),
{
    let r = CompInfo::new(String::from_str(name), Vec::new(), Vec::new());
    assert(r@.inputs =~= Seq::<Seq<char>>::empty());
    assert(r@.outputs =~= Seq::<Seq<char>>::empty());
    r
}

impl ComponentFactory {
    pub open spec fn wf(&self) -> bool {
        self@.wf()
    }

    /// Builds the primitive of the kind `c_id` for a place where it is wired
    /// with `num_inputs` inputs and `num_outputs` outputs, if it can have
    /// them.
    fn create_builtin(&self, c_id: CompId, num_inputs: usize, num_outputs: usize) -> (r: Option<
        Component,
    >)
        requires
            c_id.0 < self@.components.len(),
        ensures
            match r {
                Some(c) => spec_builtin(
                    self@.components[c_id.0 as int].name,
                    num_inputs,
                    num_outputs,
                    self@.stdin,
                    self@.stdout,
                ) == Some(c@) && c@.wf(),
                None => spec_builtin(
                    self@.components[c_id.0 as int].name,
                    num_inputs,
                    num_outputs,
                    self@.stdin,
                    self@.stdout,
                ) is None,
            },
    {
        assert(self@.components[c_id.0 as int] == self.components@[c_id.0 as int]@);
        let name = self.components[c_id.0].name.as_str();
        if same_name(name, "Nand") && num_outputs == 1 {
            Some(Component::Nand(Nand::new(num_inputs)))
        } else if same_name(name, "ConstantBit") && num_inputs == 0 && num_outputs == 3 {
            Some(Component::ConstantBit(ConstantBit::new()))
        } else if same_name(name, "Stdin") && num_inputs == 1 && num_outputs == 9 {
            let bridge = match &self.stdin_bufread {
                Some(source) => Stdin::with_bufread(source.clone()),
                None => Stdin::new(),
            };
            Some(Component::Stdin(bridge))
        } else if same_name(name, "Stdout") && num_inputs == 9 && num_outputs == 0 {
            let bridge = match &self.stdout_bufwrite {
                Some(sink) => Stdout::with_bufwrite(sink.clone()),
                None => Stdout::new(),
            };
            Some(Component::Stdout(bridge))
        } else {
            None
        }
    }

    /// Instantiates the kind `c_id` as a network: builds each instance of
    /// its definition, a primitive directly and another kind as a network
    /// of its own, and wires them as the definition's table says.
    fn create(&self, c_id: CompId) -> (r: Result<Component, InstantiateError>)
        requires
            self@.wf(),
            spec_primitives() <= c_id.0 < self@.components.len(),
        ensures
            r is Ok <==> self@.instance(c_id.0 as int) is Some,
            match r {
                Ok(c) => c@ == ComponentModel::Network(self@.instance(c_id.0 as int)->0) && c@.wf()
                    && self@.fault(c_id.0 as int) is None,
                Err(e) => e is BuiltinArity && self@.fault(c_id.0 as int) == Some(e),
            },
        decreases self@.rank[c_id.0 as int],
    {
        let id = c_id.0;
        let ghost fm = self@;
        assert(fm.def_wf(id as int));
        assert(fm.components[id as int] == self.components@[id as int]@);
        let info = &self.components[id];
        let def = match &self.comp_def[id] {
            Some(d) => d,
            None => {
                assert(false);
                return Err(InstantiateError::UnknownComponent);
            },
        };
        let ghost dm = def@;
        assert(fm.defs[id as int] == Some(dm));
        let comp = def.comp();
        let generics = def.generics();
        let mut slots: Vec<CompIo> = Vec::new();
        slots.push(CompIo::c_zero(info.inputs.len(), info.outputs.len()));
        let n = comp.len();
        let mut l: usize = 1;
        while l < n
            invariant
                1 <= l <= n,
                n == dm.comp.len(),
                comp@ == dm.comp,
                generics@ == dm.generics,
                fm == self@,
                fm.wf(),
                id == c_id.0,
                spec_primitives() <= id < fm.components.len(),
                fm.defs[id as int] == Some(dm),
                fm.def_wf(id as int),
                slots@.len() == l,
                fm.fault_among(id as int, l as nat) is None,
                slots@[0]@ == (SlotModel {
                    comp: ComponentModel::Nand { num_inputs: 0 },
                    input: spec_unknown(dm.in_count(0) as nat),
                    output: spec_unknown(dm.out_count(0) as nat),
                    connections: spec_no_fanout(dm.out_count(0) as nat),
                    output_changed: true,
                }),
                forall|m: int|
                    #![trigger dm.comp[m]]
                    1 <= m < l ==> {
                        &&& fm.child(id as int, m) is Some
                        &&& fm.child(id as int, m)->0.wf()
                        &&& fm.child(id as int, m)->0.num_inputs() == dm.in_count(m)
                        &&& fm.child(id as int, m)->0.num_outputs() == dm.out_count(m)
                    },
                forall|m: int|
                    1 <= m < l ==> (#[trigger] slots@[m])@ == (SlotModel {
                        comp: fm.child(id as int, m)->0,
                        input: spec_unknown(dm.in_count(m) as nat),
                        output: spec_unknown(dm.out_count(m) as nat),
                        connections: spec_no_fanout(dm.out_count(m) as nat),
                        output_changed: true,
                    }),
            decreases n - l,
        {
            let kind = comp[l];
            let (num_i, num_o) = generics[l];
            assert(fm.child_wf(id as int, l as int));
            assert(fm.components[kind.0 as int] == self.components@[kind.0 as int]@);
            proof {
                fm.lemma_builtin_kinds(kind.0 as int);
            }
            let child = if is_builtin(self.components[kind.0].name.as_str()) {
                match self.create_builtin(kind, num_i, num_o) {
                    Some(c) => c,
                    None => {
                        assert(fm.child(id as int, l as int) is None);
                        assert(dm.comp[l as int] == kind);
                        assert(fm.instance(id as int) is None);
                        proof {
                            assert(fm.fault_among(id as int, (l + 1) as nat) == Some(
                                InstantiateError::BuiltinArity {
                                    kind,
                                    inputs: num_i,
                                    outputs: num_o,
                                },
                            ));
                            fm.lemma_fault_stays(id as int, (l + 1) as nat, n as nat);
                        }
                        return Err(
                            InstantiateError::BuiltinArity {
                                kind,
                                inputs: num_i,
                                outputs: num_o,
                            },
                        );
                    },
                }
            } else {
                match self.create(kind) {
                    Ok(c) => c,
                    Err(e) => {
                        assert(fm.child(id as int, l as int) is None);
                        assert(dm.comp[l as int] == kind);
                        assert(fm.instance(id as int) is None);
                        proof {
                            assert(fm.child_fault(id as int, l as int) == Some(e));
                            assert(fm.fault_among(id as int, (l + 1) as nat) == Some(e));
                            fm.lemma_fault_stays(id as int, (l + 1) as nat, n as nat);
                        }
                        return Err(e);
                    },
                }
            };
            assert(fm.child(id as int, l as int) == Some(child@));
            assert(fm.child_fault(id as int, l as int) is None);
            let ghost before = slots@;
            slots.push(CompIo::new(child));
            proof {
                assert forall|m: int| 1 <= m < l + 1 implies (#[trigger] slots@[m])@ == (SlotModel {
                    comp: fm.child(id as int, m)->0,
                    input: spec_unknown(dm.in_count(m) as nat),
                    output: spec_unknown(dm.out_count(m) as nat),
                    connections: spec_no_fanout(dm.out_count(m) as nat),
                    output_changed: true,
                }) by {
                    if m < l {
                        assert(slots@[m] == before[m]);
                    }
                }
                assert(slots@[0] == before[0]);
            }
            l += 1;
        }
        let ghost bare = slots@;
        wire(&mut slots, def);
        let net = Network::new(slots, Rc::new(info.duplicate()));
        proof {
            let want = fm.instance(id as int);
            assert(want is Some);
            let table = dm.connections;
            let made = Seq::new(slots@.len(), |i: int| slots@[i]@);
            let wanted = Seq::new(
                dm.comp.len(),
                |m: int|
                    fm.slot(
                        id as int,
                        m,
                        if m == 0 {
                            ComponentModel::Nand { num_inputs: 0 }
                        } else {
                            fm.child(id as int, m)->0
                        },
                    ),
            );
            assert(made =~= wanted) by {
                assert forall|m: int| 0 <= m < made.len() implies made[m] == wanted[m] by {
                    let kind = dm.comp[m];
                    assert(slots@[m]@ == (SlotModel {
                        connections: spec_fanout(table, m, dm.out_count(m), table.len()),
                        ..bare[m]@
                    }));
                }
            }
            assert(want->0.slots =~= made) by {
                assert forall|m: int| 0 <= m < made.len() implies want->0.slots[m] == made[m] by {
                    let kind = dm.comp[m];
                    assert(made[m] == wanted[m]);
                }
            }
            assert(net@.info == want->0.info);
            assert(net@.slots == want->0.slots);
            assert(net@.connections =~= want->0.connections);
            assert(net@.dirty =~= want->0.dirty);
            assert(net@ == want->0);
            let nm = net@;
            assert(nm.wf()) by {
                assert forall|i: int| 1 <= i < nm.slots.len() implies {
                    &&& (#[trigger] nm.slots[i]).comp.wf()
                    &&& nm.slots[i].input.len() == nm.slots[i].comp.num_inputs()
                    &&& nm.slots[i].output.len() == nm.slots[i].comp.num_outputs()
                } by {
                    let kind = dm.comp[i];
                    assert(fm.child(id as int, i) is Some);
                }
                assert forall|i: int, o: int, k: int|
                    0 <= i < nm.connections.len() && 0 <= o < nm.connections[i].len() && 0 <= k
                        < nm.connections[i][o].len() implies nm.valid_target(
                    #[trigger] nm.connections[i][o][k],
                ) by {
                    lemma_fanout_targets(dm, i, o, table.len());
                    let t = spec_port_fanout(table, i, o, table.len())[k];
                    assert(nm.connections[i][o][k] == t);
                    assert(nm.slots[t.comp_id as int].input.len() == dm.in_count(t.comp_id as int));
                }
            }
        }
        Ok(Component::Network(net))
    }
}

/// The signatures of the primitives.
pub open spec fn spec_builtin_signatures() -> Seq<InfoModel> {
    seq![
        InfoModel { name: "Nand"@, inputs: Seq::empty(), outputs: Seq::empty() },
        InfoModel { name: "ConstantBit"@, inputs: Seq::empty(), outputs: Seq::empty() },
        InfoModel { name: "Stdin"@, inputs: Seq::empty(), outputs: Seq::empty() },
        InfoModel { name: "Stdout"@, inputs: Seq::empty(), outputs: Seq::empty() },
    ]
}

/// The definitions handed to the factory as models: for each its signature
/// and the statements of its body.
pub open spec fn sources_view(all: Seq<(CompInfo, Vec<CompInfo>)>) -> Seq<
    (InfoModel, Seq<InfoModel>),
> {
    Seq::new(all.len(), |k: int| (all[k].0@, body_view(all[k].1@)))
}

/// The registry after the first `k` of the definitions are registered: the
/// primitives, then the signatures in order.
pub open spec fn spec_registry(av: Seq<(InfoModel, Seq<InfoModel>)>, k: int) -> Seq<InfoModel> {
    spec_builtin_signatures() + Seq::new(k as nat, |i: int| av[i].0)
}

/// Whether each of the first `k` signatures has distinct port names and a
/// name that no primitive and no earlier definition has.
pub open spec fn spec_signatures_ok(av: Seq<(InfoModel, Seq<InfoModel>)>, k: int) -> bool {
    forall|j: int|
        0 <= j < k ==> (#[trigger] av[j]).0.ports_distinct() && !spec_registered(
            spec_registry(av, j),
            av[j].0.name,
        )
}

/// Whether `rank` gives every definition a higher number than every
/// definition that it instantiates.
pub open spec fn spec_ranked(av: Seq<(InfoModel, Seq<InfoModel>)>, rank: Seq<nat>) -> bool {
    let reg = spec_registry(av, av.len() as int);
    &&& rank.len() == reg.len()
    &&& forall|a: int, l: int|
        #![trigger spec_instances(av[a].1, av[a].1.len())[l]]
        0 <= a < av.len() && 0 <= l < spec_instances(av[a].1, av[a].1.len()).len() ==> {
            let k = spec_id_of(reg, spec_instances(av[a].1, av[a].1.len())[l].name);
            k >= spec_primitives() ==> rank[k] < rank[spec_primitives() + a]
        }
}

/// Why a set of definitions is not accepted.
#[derive(Debug)]
pub enum FactoryError {
    /// The signature of the definition number `definition` uses a port name
    /// twice.
    DuplicatePort { definition: usize, port: DuplicatePort },
    /// The definition number `definition` has the name of a primitive or of
    /// an earlier definition.
    Redefinition { definition: usize },
    /// The body of the definition number `definition` does not compile.
    Definition { definition: usize, error: CompileError },
    /// The definition number `definition` instantiates itself through other
    /// definitions, or instantiates one that does.
    CyclicDefinition { definition: usize },
}

/// Whether `e` says why the definitions are not accepted: the first
/// signature that is not in order; or, all signatures being in order, the
/// first body that does not compile, with the reason; or, all bodies
/// compiling, that the definitions cannot be ranked, one being part of its
/// own body.
pub open spec fn spec_refuses(av: Seq<(InfoModel, Seq<InfoModel>)>, e: FactoryError) -> bool {
    let n = av.len() as int;
    let reg = spec_registry(av, n);
    match e {
        FactoryError::DuplicatePort { definition, port } => {
            &&& definition < n
            &&& spec_signatures_ok(av, definition as int)
            &&& !av[definition as int].0.ports_distinct()
            &&& av[definition as int].0.first_duplicate(port)
        },
        FactoryError::Redefinition { definition } => {
            &&& definition < n
            &&& spec_signatures_ok(av, definition as int)
            &&& av[definition as int].0.ports_distinct()
            &&& spec_registered(spec_registry(av, definition as int), av[definition as int].0.name)
        },
        FactoryError::Definition { definition, error } => {
            &&& definition < n
            &&& spec_signatures_ok(av, n)
            &&& forall|j: int|
                0 <= j < definition ==> spec_compiles(reg, (#[trigger] av[j]).0, av[j].1)
            &&& spec_explains(reg, av[definition as int].0, av[definition as int].1, error)
        },
        FactoryError::CyclicDefinition { definition } => {
            &&& definition < n
            &&& spec_signatures_ok(av, n)
            &&& forall|j: int| 0 <= j < n ==> spec_compiles(reg, (#[trigger] av[j]).0, av[j].1)
            &&& forall|rank: Seq<nat>| !spec_ranked(av, rank)
        },
    }
}

/// Registers the signatures in order, after the primitives. Fails at the
/// first signature with a port name used twice, or with a name that is
/// taken.
pub fn register(all: &Vec<(CompInfo, Vec<CompInfo>)>) -> (r: Result<Vec<CompInfo>, FactoryError>)
    ensures
        match r {
            Ok(components) => {
                &&& registry_view(components@) == spec_registry(
                    sources_view(all@),
                    all@.len() as int,
                )
                &&& spec_signatures_ok(sources_view(all@), all@.len() as int)
            },
            Err(FactoryError::DuplicatePort { definition, port }) => spec_refuses(
                sources_view(all@),
                FactoryError::DuplicatePort { definition, port },
            ),
            Err(FactoryError::Redefinition { definition }) => spec_refuses(
                sources_view(all@),
                FactoryError::Redefinition { definition },
            ),
            Err(_) => false,
        },
{
    let ghost av = sources_view(all@);
    let mut components: Vec<CompInfo> = Vec::new();
    assert(registry_view(components@) =~= Seq::<InfoModel>::empty());
    insert_special_components(&mut components);
    assert(registry_view(components@) =~= spec_registry(av, 0));
    let mut k: usize = 0;
    while k < all.len()
        invariant
            k <= all.len(),
            av == sources_view(all@),
            registry_view(components@) == spec_registry(av, k as int),
            spec_signatures_ok(av, k as int),
        decreases all.len() - k,
    {
        let sig = &all[k].0;
        assert(av[k as int].0 == sig@);
        match sig.find_duplicate_port() {
            Some(port) => {
                return Err(FactoryError::DuplicatePort { definition: k, port });
            },
            None => {},
        }
        match find_component(&components, sig.name.as_str()) {
            Some(_) => {
                return Err(FactoryError::Redefinition { definition: k });
            },
            None => {},
        }
        let ghost before = registry_view(components@);
        components.push(sig.duplicate());
        k += 1;
        assert(registry_view(components@) =~= before.push(sig@));
        assert(spec_registry(av, k as int) =~= spec_registry(av, k - 1).push(av[k - 1].0));
    }
    Ok(components)
}

/// In a registry whose signatures are in order, the primitives come first,
/// no two kinds share a name, and each definition has the number of its
/// place after the primitives.
pub proof fn lemma_registry(av: Seq<(InfoModel, Seq<InfoModel>)>, n: int)
    requires
        0 <= n <= av.len(),
        spec_signatures_ok(av, n),
    ensures
        spec_registry(av, n).len() == spec_primitives() + n,
        spec_registry(av, n)[0].name == "Nand"@,
        spec_registry(av, n)[1].name == "ConstantBit"@,
        spec_registry(av, n)[2].name == "Stdin"@,
        spec_registry(av, n)[3].name == "Stdout"@,
        forall|j: int| 0 <= j < n ==> #[trigger] spec_registry(av, n)[spec_primitives() + j] == av[j].0,
        forall|i: int, j: int|
            0 <= i < j < spec_registry(av, n).len() ==> spec_registry(av, n)[i].name
                != spec_registry(av, n)[j].name,
        forall|j: int|
            0 <= j < n ==> spec_is_id(
                spec_registry(av, n),
                (#[trigger] av[j]).0.name,
                spec_primitives() + j,
            ),
{
    let reg = spec_registry(av, n);
    lemma_builtin_names();
    assert forall|i: int, j: int| 0 <= i < j < reg.len() implies reg[i].name != reg[j].name by {
        if j >= 4 {
            let part = spec_registry(av, j - 4);
            assert(!spec_registered(part, av[j - 4].0.name));
            assert(part[i] == reg[i]);
            assert(reg[j] == av[j - 4].0);
        }
    }
    assert forall|j: int| 0 <= j < n implies spec_is_id(
        reg,
        (#[trigger] av[j]).0.name,
        spec_primitives() + j,
    ) by {
        assert(reg[4 + j] == av[j].0);
    }
}

/// An instance of a body without a statement at fault is of a registered
/// kind, not of the kind that is being defined, and, unless it is a
/// primitive, wired with the ports that its kind declares.
pub proof fn lemma_instance_facts(
    reg: Seq<InfoModel>,
    sig: InfoModel,
    body: Seq<InfoModel>,
    n: nat,
    l: int,
)
    requires
        n <= body.len(),
        spec_faultless(reg, sig, body, n as int),
        0 <= l < spec_instances(body, n).len(),
    ensures
        ({
            let c = spec_instances(body, n)[l];
            &&& c.name != sig.name
            &&& spec_registered(reg, c.name)
            &&& !spec_is_builtin(c.name) ==> {
                &&& reg[spec_id_of(reg, c.name)].inputs.len() == c.inputs.len()
                &&& reg[spec_id_of(reg, c.name)].outputs.len() == c.outputs.len()
            }
        }),
    decreases n,
{
    if n > 0 {
        let before = spec_instances(body, (n - 1) as nat);
        if l < before.len() {
            lemma_instance_facts(reg, sig, body, (n - 1) as nat, l);
            assert(spec_instances(body, n)[l] == before[l]);
        } else {
            assert(spec_instances(body, n)[l] == body[n - 1]);
            assert(spec_statement_fault(reg, sig, body[n - 1]) is None);
        }
    }
}

/// Compiles the bodies in order, given the registry of all signatures.
/// Fails at the first body that does not compile.
fn compile_all(components: &Vec<CompInfo>, all: &Vec<(CompInfo, Vec<CompInfo>)>) -> (r: Result<
    Vec<Option<CompDefinition>>,
    FactoryError,
>)
    requires
        registry_view(components@) == spec_registry(sources_view(all@), all@.len() as int),
        spec_signatures_ok(sources_view(all@), all@.len() as int),
    ensures
        match r {
            Ok(defs) => {
                let av = sources_view(all@);
                let reg = spec_registry(av, av.len() as int);
                &&& defs@.len() == spec_primitives() + all@.len()
                &&& forall|k: int| 0 <= k < spec_primitives() ==> (#[trigger] defs@[k]) is None
                &&& forall|k: int|
                    0 <= k < all@.len() ==> {
                        &&& (#[trigger] defs@[spec_primitives() + k]) is Some
                        &&& spec_compiles(reg, av[k].0, av[k].1)
                        &&& defs@[spec_primitives() + k]->0@.compiles(
                            reg,
                            spec_body(av[k].0, av[k].1),
                        )
                    }
            },
            Err(FactoryError::Definition { definition, error }) => spec_refuses(
                sources_view(all@),
                FactoryError::Definition { definition, error },
            ),
            Err(_) => false,
        },
{
    let ghost av = sources_view(all@);
    let ghost reg = spec_registry(av, av.len() as int);
    let mut defs: Vec<Option<CompDefinition>> = Vec::new();
    defs.push(None);
    defs.push(None);
    defs.push(None);
    defs.push(None);
    proof {
        lemma_registry(av, av.len() as int);
    }
    let mut k: usize = 0;
    while k < all.len()
        invariant
            k <= all.len(),
            av == sources_view(all@),
            reg == spec_registry(av, av.len() as int),
            reg == registry_view(components@),
            spec_signatures_ok(av, av.len() as int),
            forall|j: int|
                0 <= j < av.len() ==> spec_is_id(reg, (#[trigger] av[j]).0.name, spec_primitives() + j),
            defs@.len() == spec_primitives() + k,
            forall|j: int| 0 <= j < spec_primitives() ==> (#[trigger] defs@[j]) is None,
            forall|j: int|
                0 <= j < k ==> {
                    &&& (#[trigger] defs@[spec_primitives() + j]) is Some
                    &&& spec_compiles(reg, av[j].0, av[j].1)
                    &&& defs@[spec_primitives() + j]->0@.compiles(reg, spec_body(av[j].0, av[j].1))
                },
        decreases all.len() - k,
    {
        assert(av[k as int] == (all@[k as int].0@, body_view(all@[k as int].1@)));
        assert(spec_is_id(reg, av[k as int].0.name, spec_primitives() + k));
        proof {
            lemma_id_unique(reg, av[k as int].0.name, spec_primitives() + k);
        }
        let def = match CompDefinition::new(components, &all[k].0, all[k].1.as_slice()) {
            Ok(def) => def,
            Err(error) => {
                assert forall|j: int| 0 <= j < k implies spec_compiles(
                    reg,
                    (#[trigger] av[j]).0,
                    av[j].1,
                ) by {
                    assert(defs@[spec_primitives() + j] is Some);
                }
                return Err(FactoryError::Definition { definition: k, error });
            },
        };
        let ghost before = defs@;
        defs.push(Some(def));
        proof {
            assert forall|j: int| 0 <= j < k + 1 implies {
                &&& (#[trigger] defs@[spec_primitives() + j]) is Some
                &&& spec_compiles(reg, av[j].0, av[j].1)
                &&& defs@[spec_primitives() + j]->0@.compiles(reg, spec_body(av[j].0, av[j].1))
            } by {
                if j < k {
                    assert(defs@[spec_primitives() + j] == before[spec_primitives() + j]);
                }
            }
            assert forall|j: int| 0 <= j < spec_primitives() implies (#[trigger] defs@[j]) is None by {
                assert(defs@[j] == before[j]);
            }
        }
        k += 1;
    }
    Ok(defs)
}

/// Whether `rank` gives every kind with a definition a higher number than
/// every kind with a definition that it instantiates.
pub open spec fn spec_def_ranked(defs: Seq<Option<DefModel>>, rank: Seq<nat>) -> bool {
    &&& rank.len() == defs.len()
    &&& forall|id: int, l: int|
        #![trigger defs[id]->0.comp[l]]
        spec_primitives() <= id < defs.len() && 1 <= l < defs[id]->0.comp.len() ==> {
            let k = defs[id]->0.comp[l].0;
            k >= spec_primitives() ==> rank[k as int] < rank[id]
        }
}

/// Whether every instance in the definition of the kind `id`, unless it is
/// a primitive, has a rank, and one under `pass`.
pub open spec fn spec_children_below(
    defs: Seq<Option<DefModel>>,
    id: int,
    rank: Seq<usize>,
    pass: int,
) -> bool {
    forall|l: int|
        #![trigger defs[id]->0.comp[l]]
        1 <= l < defs[id]->0.comp.len() ==> {
            let k = defs[id]->0.comp[l].0;
            k >= spec_primitives() ==> 1 <= rank[k as int] < pass
        }
}

/// How many of the first `n` kinds have a definition and no rank yet.
pub open spec fn spec_unranked(rank: Seq<usize>, n: nat) -> nat
    decreases n,
{
    if n == 0 {
        0
    } else {
        spec_unranked(rank, (n - 1) as nat) + (if n - 1 >= spec_primitives() && rank[n - 1] == 0 {
            1nat
        } else {
            0nat
        })
    }
}

/// Giving a rank to a kind without one lowers the number of kinds without
/// rank by one.
proof fn lemma_unranked_update(rank: Seq<usize>, i: int, v: usize, n: nat)
    requires
        spec_primitives() <= i < rank.len(),
        n <= rank.len(),
        rank[i] == 0,
        v >= 1,
    ensures
        spec_unranked(rank.update(i, v), n) + (if i < n { 1nat } else { 0nat }) == spec_unranked(
            rank,
            n,
        ),
    decreases n,
{
    if n > 0 {
        lemma_unranked_update(rank, i, v, (n - 1) as nat);
    }
}

/// Definitions of which each that has no rank instantiates one that has no
/// rank cannot be ranked: in any ranking a definition without rank would
/// stand above every number.
proof fn lemma_descent(defs: Seq<Option<DefModel>>, rho: Seq<nat>, rank: Seq<usize>, v: nat)
    requires
        spec_def_ranked(defs, rho),
        rank.len() == defs.len(),
        forall|id: int|
            spec_primitives() <= id < defs.len() && #[trigger] rank[id] == 0 ==> exists|l: int|
                #![trigger defs[id]->0.comp[l]]
                1 <= l < defs[id]->0.comp.len() && spec_primitives() <= defs[id]->0.comp[l].0
                    < defs.len() && rank[defs[id]->0.comp[l].0 as int] == 0,
    ensures
        forall|id: int| spec_primitives() <= id < defs.len() && #[trigger] rank[id] == 0 ==> rho[id] >= v,
    decreases v,
{
    if v > 0 {
        lemma_descent(defs, rho, rank, (v - 1) as nat);
        assert forall|id: int| spec_primitives() <= id < defs.len() && #[trigger] rank[id]
            == 0 implies rho[id] >= v by {
            let l = choose|l: int|
                #![trigger defs[id]->0.comp[l]]
                1 <= l < defs[id]->0.comp.len() && spec_primitives() <= defs[id]->0.comp[l].0
                    < defs.len() && rank[defs[id]->0.comp[l].0 as int] == 0;
            let k = defs[id]->0.comp[l].0 as int;
            assert(rank[k] == 0);
            assert(rho[k] >= v - 1);
            assert(rho[k] < rho[id]);
        }
    }
}

/// Whether every instance in `def`, unless it is a primitive, has a rank,
/// and one under `pass`.
fn children_below(def: &CompDefinition, rank: &Vec<usize>, pass: usize) -> (r: bool)
    requires
        forall|l: int| 1 <= l < def@.comp.len() ==> (#[trigger] def@.comp[l]).0 < rank@.len(),
    ensures
        r == forall|l: int|
            #![trigger def@.comp[l]]
            1 <= l < def@.comp.len() ==> {
                let k = def@.comp[l].0;
                k >= spec_primitives() ==> 1 <= rank@[k as int] < pass
            },
{
    let comp = def.comp();
    let mut l: usize = 1;
    while l < comp.len()
        invariant
            1 <= l,
            comp@ == def@.comp,
            forall|m: int| 1 <= m < def@.comp.len() ==> (#[trigger] def@.comp[m]).0 < rank@.len(),
            forall|m: int|
                #![trigger def@.comp[m]]
                1 <= m < l ==> {
                    let k = def@.comp[m].0;
                    k >= spec_primitives() ==> 1 <= rank@[k as int] < pass
                },
        decreases comp.len() - l,
    {
        let k = comp[l].0;
        assert(def@.comp[l as int].0 == k);
        if k >= 4 && !(1 <= rank[k] && rank[k] < pass) {
            return false;
        }
        l += 1;
    }
    true
}

/// Ranks the definitions: each gets a number higher than that of every
/// definition that it instantiates. Fails, with the first definition left
/// without a number, if there is no such ranking: some definition is part of
/// its own body.
fn rank_all(defs: &Vec<Option<CompDefinition>>) -> (r: Result<Vec<usize>, usize>)
    requires
        defs@.len() >= spec_primitives(),
        forall|id: int| spec_primitives() <= id < defs@.len() ==> (#[trigger] defs@[id]) is Some,
        forall|id: int, l: int|
            #![trigger defs@[id]->0@.comp[l]]
            spec_primitives() <= id < defs@.len() && 1 <= l < defs@[id]->0@.comp.len()
                ==> defs@[id]->0@.comp[l].0 < defs@.len(),
    ensures
        match r {
            Ok(rank) => spec_def_ranked(defs_view(defs@), Seq::new(rank@.len(), |i: int| rank@[i] as nat)),
            Err(id) => spec_primitives() <= id < defs@.len() && forall|rho: Seq<nat>|
                !spec_def_ranked(defs_view(defs@), rho),
        },
{
    let ghost dv = defs_view(defs@);
    let n = defs.len();
    let mut rank: Vec<usize> = Vec::new();
    let mut i: usize = 0;
    while i < n
        invariant
            i <= n,
            rank@.len() == i,
            forall|j: int| 0 <= j < i ==> rank@[j] == 0,
        decreases n - i,
    {
        rank.push(0);
        i += 1;
    }
    let mut pending: usize = n - 4;
    proof {
        lemma_all_unranked(rank@, n as nat);
    }
    let mut pass: usize = 1;
    let mut stalled = false;
    while !stalled
        invariant
            n == defs@.len(),
            n >= spec_primitives(),
            dv == defs_view(defs@),
            rank@.len() == n,
            forall|id: int| spec_primitives() <= id < n ==> (#[trigger] defs@[id]) is Some,
            forall|id: int, l: int|
                #![trigger defs@[id]->0@.comp[l]]
                spec_primitives() <= id < n && 1 <= l < defs@[id]->0@.comp.len()
                    ==> defs@[id]->0@.comp[l].0 < n,
            pending == spec_unranked(rank@, n as nat),
            1 <= pass,
            pass + pending <= n - 3,
            forall|id: int|
                spec_primitives() <= id < n && (#[trigger] rank@[id]) >= 1 ==> rank@[id] < pass
                    && spec_children_below(dv, id, rank@, rank@[id] as int),
            stalled ==> forall|id: int|
                spec_primitives() <= id < n && (#[trigger] rank@[id]) == 0 ==> !spec_children_below(
                    dv,
                    id,
                    rank@,
                    pass as int,
                ),
        decreases pending, (if stalled { 0nat } else { 1nat }),
    {
        let ghost start = rank@;
        let mut progress = false;
        let mut id: usize = 4;
        while id < n
            invariant
                4 <= id <= n,
                n == defs@.len(),
                dv == defs_view(defs@),
                rank@.len() == n,
                forall|j: int| spec_primitives() <= j < n ==> (#[trigger] defs@[j]) is Some,
                forall|j: int, l: int|
                    #![trigger defs@[j]->0@.comp[l]]
                    spec_primitives() <= j < n && 1 <= l < defs@[j]->0@.comp.len()
                        ==> defs@[j]->0@.comp[l].0 < n,
                pending == spec_unranked(rank@, n as nat),
                1 <= pass,
                start.len() == n,
                pass + spec_unranked(start, n as nat) <= n - 3,
                progress ==> pending < spec_unranked(start, n as nat),
                !progress ==> rank@ == start,
                forall|j: int|
                    spec_primitives() <= j < n && (#[trigger] rank@[j]) >= 1 ==> rank@[j] <= pass
                        && spec_children_below(dv, j, rank@, rank@[j] as int),
                forall|j: int|
                    spec_primitives() <= j < n && (#[trigger] start[j]) >= 1 ==> start[j] < pass,
                !progress ==> forall|j: int|
                    spec_primitives() <= j < id && (#[trigger] rank@[j]) == 0
                        ==> !spec_children_below(dv, j, rank@, pass as int),
            decreases n - id,
        {
            if rank[id] == 0 {
                let def = match &defs[id] {
                    Some(d) => d,
                    None => {
                        assert(false);
                        return Err(id);
                    },
                };
                assert(dv[id as int] == Some(def@));
                assert forall|l: int| 1 <= l < def@.comp.len() implies (#[trigger] def@.comp[l]).0
                    < rank@.len() by {
                    assert(defs@[id as int]->0@.comp[l].0 < n);
                }
                if children_below(def, &rank, pass) {
                    let ghost before = rank@;
                    assert(spec_children_below(dv, id as int, before, pass as int));
                    proof {
                        lemma_unranked_update(before, id as int, pass, n as nat);
                    }
                    rank[id] = pass;
                    pending -= 1;
                    progress = true;
                    proof {
                        assert forall|j: int|
                            spec_primitives() <= j < n && (#[trigger] rank@[j]) >= 1 implies rank@[j]
                            <= pass && spec_children_below(dv, j, rank@, rank@[j] as int) by {
                            if j == id {
                                assert forall|l: int|
                                    #![trigger dv[j]->0.comp[l]]
                                    1 <= l < dv[j]->0.comp.len() implies {
                                    let k = dv[j]->0.comp[l].0;
                                    k >= spec_primitives() ==> 1 <= rank@[k as int] < pass
                                } by {
                                    let k = dv[j]->0.comp[l].0;
                                    if k >= 4 {
                                        assert(1 <= before[k as int] < pass);
                                    }
                                }
                            } else {
                                assert(before[j] >= 1);
                                assert(spec_children_below(dv, j, before, before[j] as int));
                                assert forall|l: int|
                                    #![trigger dv[j]->0.comp[l]]
                                    1 <= l < dv[j]->0.comp.len() implies {
                                    let k = dv[j]->0.comp[l].0;
                                    k >= spec_primitives() ==> 1 <= rank@[k as int] < rank@[j]
                                } by {
                                    let k = dv[j]->0.comp[l].0;
                                    if k >= 4 {
                                        assert(1 <= before[k as int] < before[j]);
                                    }
                                }
                            }
                        }
                    }
                }
            }
            id += 1;
        }
        if progress {
            pass += 1;
        } else {
            stalled = true;
        }
    }
    let mut id: usize = 4;
    while id < n
        invariant
            4 <= id <= n,
            n == defs@.len(),
            dv == defs_view(defs@),
            rank@.len() == n,
            forall|j: int| spec_primitives() <= j < n ==> (#[trigger] defs@[j]) is Some,
            forall|j: int, l: int|
                #![trigger defs@[j]->0@.comp[l]]
                spec_primitives() <= j < n && 1 <= l < defs@[j]->0@.comp.len()
                    ==> defs@[j]->0@.comp[l].0 < n,
            forall|j: int|
                spec_primitives() <= j < n && (#[trigger] rank@[j]) >= 1 ==> rank@[j] < pass
                    && spec_children_below(dv, j, rank@, rank@[j] as int),
            forall|j: int|
                spec_primitives() <= j < n && (#[trigger] rank@[j]) == 0 ==> !spec_children_below(
                    dv,
                    j,
                    rank@,
                    pass as int,
                ),
            forall|j: int| spec_primitives() <= j < id ==> (#[trigger] rank@[j]) >= 1,
        decreases n - id,
    {
        if rank[id] == 0 {
            proof {
                assert forall|j: int, l: int|
                    #![trigger dv[j]->0.comp[l]]
                    spec_primitives() <= j < dv.len() && 1 <= l < dv[j]->0.comp.len()
                        implies dv[j]->0.comp[l].0 < dv.len() by {
                    assert(defs@[j] is Some);
                    assert(defs@[j]->0@.comp[l].0 < n);
                }
                lemma_stalled(dv, rank@, pass as int, id as int);
            }
            return Err(id);
        }
        id += 1;
    }
    proof {
        let rho = Seq::new(rank@.len(), |i: int| rank@[i] as nat);
        assert forall|j: int, l: int|
            #![trigger dv[j]->0.comp[l]]
            spec_primitives() <= j < dv.len() && 1 <= l < dv[j]->0.comp.len() implies {
            let k = dv[j]->0.comp[l].0;
            k >= spec_primitives() ==> rho[k as int] < rho[j]
        } by {
            assert(rank@[j] >= 1);
            assert(spec_children_below(dv, j, rank@, rank@[j] as int));
        }
    }
    Ok(rank)
}

/// Definitions cannot be ranked if one of them has no rank and each without
/// a rank instantiates one that has no rank under `pass`, while every rank
/// given is under `pass`.
proof fn lemma_stalled(dv: Seq<Option<DefModel>>, rank: Seq<usize>, pass: int, id: int)
    requires
        rank.len() == dv.len(),
        spec_primitives() <= id < dv.len(),
        rank[id] == 0,
        forall|j: int, l: int|
            #![trigger dv[j]->0.comp[l]]
            spec_primitives() <= j < dv.len() && 1 <= l < dv[j]->0.comp.len()
                ==> dv[j]->0.comp[l].0 < dv.len(),
        forall|j: int|
            spec_primitives() <= j < dv.len() && (#[trigger] rank[j]) >= 1 ==> rank[j] < pass,
        forall|j: int|
            spec_primitives() <= j < dv.len() && (#[trigger] rank[j]) == 0 ==> !spec_children_below(
                dv,
                j,
                rank,
                pass,
            ),
    ensures
        forall|rho: Seq<nat>| !spec_def_ranked(dv, rho),
{
    assert forall|rho: Seq<nat>| !spec_def_ranked(dv, rho) by {
        if spec_def_ranked(dv, rho) {
            assert forall|j: int|
                spec_primitives() <= j < dv.len() && #[trigger] rank[j] == 0 implies exists|l: int|
                #![trigger dv[j]->0.comp[l]]
                1 <= l < dv[j]->0.comp.len() && spec_primitives() <= dv[j]->0.comp[l].0 < dv.len()
                    && rank[dv[j]->0.comp[l].0 as int] == 0 by {
                assert(!spec_children_below(dv, j, rank, pass));
                let l = choose|l: int|
                    #![trigger dv[j]->0.comp[l]]
                    !(1 <= l < dv[j]->0.comp.len() ==> {
                        let k = dv[j]->0.comp[l].0;
                        k >= spec_primitives() ==> 1 <= rank[k as int] < pass
                    });
                let k = dv[j]->0.comp[l].0;
                assert(k < dv.len());
                if rank[k as int] >= 1 {
                    assert(rank[k as int] < pass);
                }
            }
            lemma_descent(dv, rho, rank, rho[id] + 1);
            assert(rho[id] >= rho[id] + 1);
        }
    }
}

/// Where no kind has a rank, all kinds with a definition are without one.
proof fn lemma_all_unranked(rank: Seq<usize>, n: nat)
    requires
        n <= rank.len(),
        forall|j: int| 0 <= j < rank.len() ==> rank[j] == 0,
    ensures
        spec_unranked(rank, n) == (if n >= spec_primitives() { n - spec_primitives() } else { 0 }),
    decreases n,
{
    if n > 0 {
        lemma_all_unranked(rank, (n - 1) as nat);
    }
}

/// In a registry without two kinds of one name, a registered name has a
/// number.
pub proof fn lemma_registered_id(reg: Seq<InfoModel>, name: Seq<char>)
    requires
        forall|i: int, j: int| 0 <= i < j < reg.len() ==> reg[i].name != reg[j].name,
        spec_registered(reg, name),
    ensures
        spec_is_id(reg, name, spec_id_of(reg, name)),
{
    let i = choose|i: int| 0 <= i < reg.len() && #[trigger] reg[i].name == name;
    assert(spec_is_id(reg, name, i)) by {
        assert forall|j: int| 0 <= j < i implies (#[trigger] reg[j]).name != name by {
            assert(reg[j].name != reg[i].name);
        }
    }
}

/// The ranks as natural numbers.
pub open spec fn spec_rank_view(rank: Seq<usize>) -> Seq<nat> {
    Seq::new(rank.len(), |i: int| rank[i] as nat)
}

/// A ranking of the compiled definitions is a ranking of their sources, and
/// the other way round.
proof fn lemma_rankings(
    av: Seq<(InfoModel, Seq<InfoModel>)>,
    dv: Seq<Option<DefModel>>,
    rho: Seq<nat>,
)
    requires
        dv.len() == spec_primitives() + av.len(),
        rho.len() == dv.len(),
        forall|k: int|
            0 <= k < av.len() ==> {
                &&& (#[trigger] dv[spec_primitives() + k]) is Some
                &&& dv[spec_primitives() + k]->0.compiles(
                    spec_registry(av, av.len() as int),
                    spec_body(av[k].0, av[k].1),
                )
            },
    ensures
        spec_def_ranked(dv, rho) <==> spec_ranked(av, rho),
{
    let reg = spec_registry(av, av.len() as int);
    if spec_def_ranked(dv, rho) {
        assert forall|a: int, l: int|
            #![trigger spec_instances(av[a].1, av[a].1.len())[l]]
            0 <= a < av.len() && 0 <= l < spec_instances(av[a].1, av[a].1.len()).len() implies {
            let k = spec_id_of(reg, spec_instances(av[a].1, av[a].1.len())[l].name);
            k >= spec_primitives() ==> rho[k] < rho[spec_primitives() + a]
        } by {
            let d = dv[spec_primitives() + a]->0;
            assert(d.comp[l + 1].0 == spec_id_of(
                reg,
                spec_body(av[a].0, av[a].1).insts[l + 1 - 1].name,
            ));
        }
    }
    if spec_ranked(av, rho) {
        assert forall|id: int, l: int|
            #![trigger dv[id]->0.comp[l]]
            spec_primitives() <= id < dv.len() && 1 <= l < dv[id]->0.comp.len() implies {
            let k = dv[id]->0.comp[l].0;
            k >= spec_primitives() ==> rho[k as int] < rho[id]
        } by {
            let a = id - spec_primitives();
            assert(dv[spec_primitives() + a] is Some);
            let insts = spec_instances(av[a].1, av[a].1.len());
            let c = insts[l - 1];
            assert(dv[id]->0.comp[l].0 == spec_id_of(reg, c.name));
        }
    }
}

/// Whether `f` is the factory of the definitions `av`: all signatures are
/// in order and registered after the primitives, every body compiles to the
/// definition that the factory holds for it, the ranks put each definition
/// above those it instantiates, and no stream is set.
pub open spec fn spec_accepts(av: Seq<(InfoModel, Seq<InfoModel>)>, f: FactoryModel) -> bool {
    let reg = spec_registry(av, av.len() as int);
    &&& f.wf()
    &&& f.components == reg
    &&& f.defs.len() == reg.len()
    &&& f.stdin is None
    &&& f.stdout is None
    &&& spec_signatures_ok(av, av.len() as int)
    &&& forall|k: int|
        0 <= k < av.len() ==> {
            &&& spec_compiles(reg, (#[trigger] av[k]).0, av[k].1)
            &&& f.defs[spec_primitives() + k] is Some
            &&& f.defs[spec_primitives() + k]->0.compiles(reg, spec_body(av[k].0, av[k].1))
        }
    &&& spec_ranked(av, spec_rank_view(f.rank))
}

/// Definitions that a factory is made of are not refused, and definitions
/// that are refused make no factory.
pub proof fn lemma_accepted_xor_refused(
    av: Seq<(InfoModel, Seq<InfoModel>)>,
    f: FactoryModel,
    e: FactoryError,
)
    requires
        spec_refuses(av, e),
    ensures
        !spec_accepts(av, f),
{
    let reg = spec_registry(av, av.len() as int);
    if spec_accepts(av, f) {
        match e {
            FactoryError::DuplicatePort { definition, port } => {
                assert(av[definition as int].0.ports_distinct());
            },
            FactoryError::Redefinition { definition } => {
                assert(!spec_registered(
                    spec_registry(av, definition as int),
                    av[definition as int].0.name,
                ));
            },
            FactoryError::Definition { definition, error } => {
                assert(spec_compiles(reg, av[definition as int].0, av[definition as int].1));
                crate::parser::lemma_error_xor_compiles(
                    reg,
                    av[definition as int].0,
                    av[definition as int].1,
                    error,
                );
            },
            FactoryError::CyclicDefinition { definition } => {
                assert(spec_ranked(av, spec_rank_view(f.rank)));
            },
        }
    }
}

impl FactoryModel {
    /// Every network in the tree of an instance is the instance of its
    /// kind, and so has the ports of the signature of its kind: as many
    /// inputs and outputs, under the same names.
    pub proof fn lemma_nested_arity(self, id: int, l: int)
        requires
            self.wf(),
            spec_primitives() <= id < self.components.len(),
            1 <= l < self.defs[id]->0.comp.len(),
            self.child(id, l) is Some,
            self.child(id, l)->0 is Network,
        ensures
            ({
                let k = self.defs[id]->0.comp[l].0 as int;
                let n = self.child(id, l)->0->Network_0;
                &&& spec_primitives() <= k < self.components.len()
                &&& self.instance(k) == Some(n)
                &&& n.info == self.components[k]
                &&& n.num_inputs() == self.components[k].inputs.len()
                &&& n.num_outputs() == self.components[k].outputs.len()
            }),
    {
        let def = self.defs[id]->0;
        let k = def.comp[l].0 as int;
        assert(self.def_wf(id));
        assert(self.child_wf(id, l));
        self.lemma_builtin_kinds(k);
        if spec_is_builtin(self.components[k].name) {
            assert(!(self.child(id, l)->0 is Network));
        }
        let kind = self.defs[k]->0;
        if forall|m: int| #![trigger kind.comp[m]] 1 <= m < kind.comp.len() ==> self.child(k, m) is Some {
        }
    }
}

impl ComponentFactory {
    /// Registers the definitions `all`, each a signature with the
    /// statements of its body, and compiles them.
    ///
    /// The signatures are registered first, in order, after the primitives:
    /// a port name used twice in one signature, and a name that is taken,
    /// are errors. Then the bodies are compiled in order. Then the
    /// definitions are ranked, so that each stands above those it
    /// instantiates: a definition that is part of its own body, directly or
    /// through others, is an error.
    pub fn new(all: Vec<(CompInfo, Vec<CompInfo>)>) -> (r: Result<ComponentFactory, FactoryError>)
        ensures
            match r {
                Ok(f) => spec_accepts(sources_view(all@), f@),
                Err(e) => spec_refuses(sources_view(all@), e),
            },
    {
        let ghost av = sources_view(all@);
        let ghost reg = spec_registry(av, av.len() as int);
        let components = match register(&all) {
            Ok(c) => c,
            Err(e) => {
                return Err(e);
            },
        };
        let defs = match compile_all(&components, &all) {
            Ok(d) => d,
            Err(e) => {
                return Err(e);
            },
        };
        let ghost dv = defs_view(defs@);
        proof {
            lemma_registry(av, av.len() as int);
            assert forall|k: int| 0 <= k < av.len() implies {
                &&& (#[trigger] dv[spec_primitives() + k]) is Some
                &&& dv[spec_primitives() + k]->0.compiles(reg, spec_body(av[k].0, av[k].1))
            } by {
                assert(defs@[spec_primitives() + k] is Some);
            }
            assert forall|id: int, l: int|
                #![trigger defs@[id]->0@.comp[l]]
                spec_primitives() <= id < defs@.len() && 1 <= l < defs@[id]->0@.comp.len()
                    implies defs@[id]->0@.comp[l].0 < defs@.len() by {
                let a = id - spec_primitives();
                assert(defs@[spec_primitives() + a] is Some);
                let d = defs@[id]->0@;
                let b = spec_body(av[a].0, av[a].1);
                assert(d.compiles(reg, b));
                let kind = d.comp[l];
                assert(spec_registered(reg, b.insts[l - 1].name));
                lemma_registered_id(reg, b.insts[l - 1].name);
            }
            assert forall|id: int| spec_primitives() <= id < defs@.len() implies (
            #[trigger] defs@[id]) is Some by {
                let a = id - spec_primitives();
                assert(defs@[spec_primitives() + a] is Some);
            }
        }
        let rank = match rank_all(&defs) {
            Ok(r) => r,
            Err(id) => {
                proof {
                    assert forall|rho: Seq<nat>| !spec_ranked(av, rho) by {
                        if spec_ranked(av, rho) {
                            lemma_rankings(av, dv, rho);
                        }
                    }
                    assert forall|j: int| 0 <= j < av.len() implies spec_compiles(
                        reg,
                        (#[trigger] av[j]).0,
                        av[j].1,
                    ) by {
                        assert(defs@[spec_primitives() + j] is Some);
                    }
                }
                return Err(FactoryError::CyclicDefinition { definition: id - 4 });
            },
        };
        let f = ComponentFactory {
            components,
            comp_def: defs,
            rank,
            stdin_bufread: None,
            stdout_bufwrite: None,
        };
        proof {
            let fm = f@;
            let rho = spec_rank_view(rank@);
            lemma_rankings(av, dv, rho);
            assert(fm.components == reg);
            assert(fm.defs == dv);
            assert forall|id: int| spec_primitives() <= id < fm.components.len() implies #[trigger] fm.def_wf(
                id,
            ) by {
                let a = id - spec_primitives();
                assert(dv[spec_primitives() + a] is Some);
                let d = dv[id]->0;
                let b = spec_body(av[a].0, av[a].1);
                assert(d.compiles(reg, b));
                assert(reg[spec_primitives() + a] == av[a].0);
                assert(spec_compiles(reg, av[a].0, av[a].1)) by {
                    assert(defs@[spec_primitives() + a] is Some);
                }
                assert forall|l: int| 1 <= l < d.comp.len() implies fm.child_wf(id, l) by {
                    let c = b.insts[l - 1];
                    let k = d.comp[l].0 as int;
                    assert(k == spec_id_of(reg, c.name));
                    assert(spec_registered(reg, c.name));
                    lemma_registered_id(reg, c.name);
                    assert(reg[k].name == c.name);
                    lemma_instance_facts(reg, av[a].0, av[a].1, av[a].1.len(), l - 1);
                    if k >= spec_primitives() {
                        lemma_builtin_names();
                        assert(!spec_is_builtin(c.name)) by {
                            if spec_is_builtin(c.name) {
                                assert(reg[0].name != reg[k].name);
                                assert(reg[1].name != reg[k].name);
                                assert(reg[2].name != reg[k].name);
                                assert(reg[3].name != reg[k].name);
                            }
                        }
                        assert(rho[k] < rho[id]) by {
                            assert(dv[id]->0.comp[l].0 == k);
                        }
                    }
                }
            }
            assert forall|k: int| 0 <= k < av.len() implies {
                &&& spec_compiles(reg, (#[trigger] av[k]).0, av[k].1)
                &&& fm.defs[spec_primitives() + k] is Some
                &&& fm.defs[spec_primitives() + k]->0.compiles(reg, spec_body(av[k].0, av[k].1))
            } by {
                assert(defs@[spec_primitives() + k] is Some);
            }
        }
        Ok(f)
    }

    /// Instantiates the definition called `name` as a network in its first
    /// state: all pins unknown, every slot due for evaluation. The network
    /// has the ports of the definition's signature, and so has every
    /// network inside it. Fails if no definition has that name, or if a
    /// primitive in it, at any depth, is wired with ports that it cannot
    /// have.
    pub fn create_named(&self, name: &str) -> (r: Result<Component, InstantiateError>)
        requires
            self@.wf(),
        ensures
            match r {
                Ok(c) => {
                    let id = spec_id_of(self@.components, name@);
                    &&& spec_registered(self@.components, name@)
                    &&& id >= spec_primitives()
                    &&& self@.instance(id) is Some
                    &&& c@ == ComponentModel::Network(self@.instance(id)->0)
                    &&& c@.wf()
                    &&& self@.instance(id)->0.single_fed()
                    &&& c@.num_inputs() == self@.components[id].inputs.len()
                    &&& c@.num_outputs() == self@.components[id].outputs.len()
                    &&& c@.name() == name@
                },
                Err(InstantiateError::UnknownComponent) => !spec_registered(
                    self@.components,
                    name@,
                ) || spec_id_of(self@.components, name@) < spec_primitives(),
                Err(InstantiateError::BuiltinArity { kind, inputs, outputs }) => {
                    let id = spec_id_of(self@.components, name@);
                    &&& spec_registered(self@.components, name@)
                    &&& id >= spec_primitives()
                    &&& self@.instance(id) is None
                    &&& self@.fault(id) == Some(
                        InstantiateError::BuiltinArity { kind, inputs, outputs },
                    )
                },
            },
    {
        match find_component(&self.components, name) {
            None => Err(InstantiateError::UnknownComponent),
            Some(id) => {
                if id < 4 {
                    Err(InstantiateError::UnknownComponent)
                } else {
                    let r = self.create(CompId(id));
                    proof {
                        let fm = self@;
                        if r is Ok {
                            let d = fm.defs[id as int]->0;
                            assert(fm.def_wf(id as int));
                            if forall|l: int|
                                #![trigger d.comp[l]]
                                1 <= l < d.comp.len() ==> fm.child(id as int, l) is Some {
                            }
                            assert(fm.instance(id as int)->0.info == fm.components[id as int]);
                            fm.lemma_instance_single_fed(id as int);
                        }
                    }
                    r
                }
            },
        }
    }

    /// Makes `r` the source of the input bridges that are built from now
    /// on. Bridges built before keep the source that they have.
    pub fn set_stdin_bufread(&mut self, r: RcBufRead)
        ensures
            final(self)@ == (FactoryModel { stdin: Some(r), ..old(self)@ }),
    {
        self.stdin_bufread = Some(r);
    }

    /// Makes `r` the sink of the output bridges that are built from now on.
    /// Bridges built before keep the sink that they have.
    pub fn set_stdout_bufwrite(&mut self, r: RcWrite)
        ensures
            final(self)@ == (FactoryModel { stdout: Some(r), ..old(self)@ }),
    {
        self.stdout_bufwrite = Some(r);
    }
}

} // verus!
