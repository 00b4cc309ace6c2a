//! The signals of a component laid out for a trace: every instance in the
//! tree of networks with the wires at its ports, and the values on them.

use crate::bit::Bit;
use crate::component::{Component, InstanceIndex, Network, PortNames};
use crate::model::{ComponentModel, NetModel};
use crate::names::{numbered, spec_decimal};
use vstd::prelude::*;
use vstd::string::*;

verus! {

/// One line of the declarations of a trace.
#[derive(Debug)]
pub enum TraceItem {
    /// The scope of an instance opens.
    Enter(String),
    /// A wire of one bit, and the place of its signal.
    Wire(String, InstanceIndex),
    /// The scope that was opened last closes.
    Leave,
}

/// One line of the declarations of a trace, as a model.
pub enum TraceLine {
    Enter(Seq<char>),
    Wire(Seq<char>, nat, nat),
    Leave,
}

/// The lines as models.
pub open spec fn lines_view(v: Seq<TraceItem>) -> Seq<TraceLine> {
    Seq::new(
        v.len(),
        |i: int|
            match v[i] {
                TraceItem::Enter(name) => TraceLine::Enter(name@),
                TraceItem::Wire(name, index) => TraceLine::Wire(
                    name@,
                    index.spec_instance() as nat,
                    index.spec_port() as nat,
                ),
                TraceItem::Leave => TraceLine::Leave,
            },
    )
}

/// The name of the instance number `j` of a component called `name`.
pub open spec fn spec_instance_name(name: Seq<char>, j: nat) -> Seq<char> {
    name + "-"@ + spec_decimal(j)
}

/// The wires of the instance number `j`, called `instance`: one for each
/// input, then one for each output, named after the instance and the port.
pub open spec fn spec_wires(
    instance: Seq<char>,
    j: nat,
    ins: Seq<Seq<char>>,
    outs: Seq<Seq<char>>,
) -> Seq<TraceLine> {
    Seq::new(
        ins.len() + outs.len(),
        |p: int|
            TraceLine::Wire(
                instance + "-"@ + (if p < ins.len() {
                    ins[p]
                } else {
                    outs[p - ins.len()]
                }),
                j,
                p as nat,
            ),
    )
}

/// The declarations of the slots 1 to `k - 1` of the network, the first
/// instance numbered `j`, and the number after the last instance. Each slot
/// opens a scope with its wires; the slots of a network inside it are
/// declared in that scope, numbered on from the slot's number.
pub open spec fn spec_children(net: NetModel, k: nat, j: nat) -> (Seq<TraceLine>, nat)
    decreases net, k,
{
    if k <= 1 || k > net.slots.len() {
        (Seq::empty(), j)
    } else {
        let (before, here) = spec_children(net, (k - 1) as nat, j);
        let comp = net.slots[k - 1].comp;
        let instance = spec_instance_name(comp.name(), here);
        let head = seq![TraceLine::Enter(instance)] + spec_wires(
            instance,
            here,
            comp.input_names(),
            comp.output_names(),
        );
        let (inner, next) = match comp {
            ComponentModel::Network(n) => spec_children(n, n.slots.len(), here + 1),
            _ => (Seq::empty(), here + 1),
        };
        (before + head + inner + seq![TraceLine::Leave], next)
    }
}

/// The declarations of a component: for a network, its own scope with the
/// wires at its ports, numbered 0, and in it the declarations of its slots;
/// for a primitive, nothing.
pub open spec fn spec_layout(comp: ComponentModel) -> Seq<TraceLine> {
    match comp {
        ComponentModel::Network(n) => {
            let instance = spec_instance_name(n.info.name, 0);
            seq![TraceLine::Enter(instance)] + spec_wires(
                instance,
                0,
                n.info.inputs,
                n.info.outputs,
            ) + spec_children(n, n.slots.len(), 1).0 + seq![TraceLine::Leave]
        },
        _ => Seq::empty(),
    }
}

/// The values at the slots 1 to `k - 1` of the network, the first instance
/// numbered `j`, in the order of the declarations, each with the number of
/// its instance and port.
pub open spec fn spec_child_values(net: NetModel, k: nat, j: nat) -> (Seq<(nat, nat, Bit)>, nat)
    decreases net, k,
{
    if k <= 1 || k > net.slots.len() {
        (Seq::empty(), j)
    } else {
        let (before, here) = spec_child_values(net, (k - 1) as nat, j);
        let slot = net.slots[k - 1];
        let head = spec_port_values(here, slot.input + slot.output);
        let (inner, next) = match slot.comp {
            ComponentModel::Network(n) => spec_child_values(n, n.slots.len(), here + 1),
            _ => (Seq::empty(), here + 1),
        };
        (before + head + inner, next)
    }
}

/// The values at the ports of the instance number `j`.
pub open spec fn spec_port_values(j: nat, bits: Seq<Bit>) -> Seq<(nat, nat, Bit)> {
    Seq::new(bits.len(), |p: int| (j, p as nat, bits[p]))
}

/// The values of all signals of a component, in the order of the
/// declarations.
pub open spec fn spec_values(comp: ComponentModel) -> Seq<(nat, nat, Bit)> {
    match comp {
        ComponentModel::Network(n) => spec_port_values(0, n.input() + n.output())
            + spec_child_values(n, n.slots.len(), 1).0,
        _ => Seq::empty(),
    }
}

/// The values as models.
pub open spec fn values_view(v: Seq<(InstanceIndex, Bit)>) -> Seq<(nat, nat, Bit)> {
    Seq::new(
        v.len(),
        |i: int| (v[i].0.spec_instance() as nat, v[i].0.spec_port() as nat, v[i].1),
    )
}

/// The name of the instance number `j` of a component called `name`.
pub fn instance_name(name: &str, j: usize) -> (r: String)
    ensures
        r@ == spec_instance_name(name@, j as nat),
{
    let mut s = String::from_str(name);
    s.append("-");
    let r = numbered(s.as_str(), j);
    assert(r@ =~= spec_instance_name(name@, j as nat));
    r
}

/// Appends the wires of the instance number `j`, called `instance`.
fn push_wires(out: &mut Vec<TraceItem>, instance: &String, j: usize, names: &PortNames)
    requires
        names.input@.len() + names.output@.len() <= usize::MAX,
    ensures
        lines_view(final(out)@) == lines_view(old(out)@) + spec_wires(
            instance@,
            j as nat,
            names.spec_input(),
            names.spec_output(),
        ),
{
    let ghost start = lines_view(out@);
    let ghost ins = names.spec_input();
    let ghost outs = names.spec_output();
    let ghost want = spec_wires(instance@, j as nat, ins, outs);
    let n_in = names.input.len();
    let n_out = names.output.len();
    let mut p: usize = 0;
    assert(lines_view(out@) =~= start + want.take(0));
    while p < n_in
        invariant
            p <= n_in,
            n_in == names.input@.len(),
            n_in == ins.len(),
            ins == names.spec_input(),
            want == spec_wires(instance@, j as nat, ins, outs),
            lines_view(out@) == start + want.take(p as int),
        decreases n_in - p,
    {
        let mut name = instance.clone();
        name.append("-");
        name.append(names.input[p].as_str());
        assert(ins[p as int] == names.input@[p as int]@);
        let ghost before = lines_view(out@);
        out.push(TraceItem::Wire(name, InstanceIndex::new(j, p)));
        proof {
            assert(name@ =~= instance@ + "-"@ + ins[p as int]);
            assert(lines_view(out@) =~= before.push(want[p as int]));
            assert(want.take(p + 1) =~= want.take(p as int).push(want[p as int]));
        }
        p += 1;
    }
    let mut q: usize = 0;
    while q < n_out
        invariant
            q <= n_out,
            n_out == names.output@.len(),
            n_out == outs.len(),
            n_in == ins.len(),
            n_in + n_out <= usize::MAX,
            outs == names.spec_output(),
            want == spec_wires(instance@, j as nat, ins, outs),
            lines_view(out@) == start + want.take(n_in + q),
        decreases n_out - q,
    {
        let mut name = instance.clone();
        name.append("-");
        name.append(names.output[q].as_str());
        assert(outs[q as int] == names.output@[q as int]@);
        let ghost before = lines_view(out@);
        out.push(TraceItem::Wire(name, InstanceIndex::new(j, n_in + q)));
        proof {
            assert(name@ =~= instance@ + "-"@ + outs[q as int]);
            assert(lines_view(out@) =~= before.push(want[n_in + q]));
            assert(want.take(n_in + q + 1) =~= want.take(n_in + q).push(want[n_in + q]));
        }
        q += 1;
    }
    assert(want.take(n_in + n_out) =~= want);
}

/// Whether the declarations of the slots 1 to `k - 1` of the network, the
/// first instance numbered `j`, fit the machine: the number of each
/// instance, the one after the last too, and the number of ports of each.
pub open spec fn spec_traceable(net: NetModel, k: nat, j: nat) -> bool
    decreases net, k,
{
    if k <= 1 || k > net.slots.len() {
        j <= usize::MAX
    } else {
        let here = spec_children(net, (k - 1) as nat, j).1;
        let comp = net.slots[k - 1].comp;
        &&& spec_traceable(net, (k - 1) as nat, j)
        &&& here < usize::MAX
        &&& comp.input_names().len() + comp.output_names().len() <= usize::MAX
        &&& match comp {
            ComponentModel::Network(n) => spec_traceable(n, n.slots.len(), here + 1),
            _ => true,
        }
    }
}

/// Appends the declarations of the slots of the network, the first instance
/// numbered `j`, and returns the number after the last instance; or stops,
/// where they do not fit the machine.
fn declare_children(net: &Network, j: usize, out: &mut Vec<TraceItem>) -> (r: Option<usize>)
    ensures
        r is Some <==> spec_traceable(net@, net@.slots.len(), j as nat),
        r is Some ==> {
            &&& lines_view(final(out)@) == lines_view(old(out)@) + spec_children(
                net@,
                net@.slots.len(),
                j as nat,
            ).0
            &&& r->0 == spec_children(net@, net@.slots.len(), j as nat).1
        },
    decreases net,
{
    let ghost start = lines_view(out@);
    let ghost nm = net@;
    let n = net.components.len();
    let mut here = j;
    let mut c: usize = 1;
    assert(lines_view(out@) =~= start + spec_children(nm, 1, j as nat).0);
    if n == 0 {
        assert(lines_view(out@) =~= start + spec_children(nm, 0, j as nat).0);
        return Some(j);
    }
    while c < n
        invariant
            1 <= c <= n,
            n == nm.slots.len(),
            n == net.components@.len(),
            nm == net@,
            spec_traceable(nm, c as nat, j as nat),
            here == spec_children(nm, c as nat, j as nat).1,
            lines_view(out@) == start + spec_children(nm, c as nat, j as nat).0,
        decreases n - c,
    {
        assert(nm.slots[c as int] == net.components@[c as int]@);
        let slot = &net.components[c];
        let comp = slot.component();
        let names = comp.port_names();
        if names.input.len() > usize::MAX - names.output.len() || here == usize::MAX {
            assert(!spec_traceable(nm, (c + 1) as nat, j as nat));
            proof {
                lemma_not_traceable(nm, (c + 1) as nat, n as nat, j as nat);
            }
            return None;
        }
        let instance = instance_name(comp.name(), here);
        let ghost before = lines_view(out@);
        out.push(TraceItem::Enter(instance.clone()));
        assert(lines_view(out@) =~= before + seq![TraceLine::Enter(instance@)]);
        push_wires(out, &instance, here, &names);
        let ghost headed = lines_view(out@);
        let ghost cm = nm.slots[c as int].comp;
        assert(cm == comp@);
        let ghost wanted = match cm {
            ComponentModel::Network(m) => spec_children(m, m.slots.len(), (here + 1) as nat),
            _ => (Seq::<TraceLine>::empty(), (here + 1) as nat),
        };
        let ghost fits = match cm {
            ComponentModel::Network(m) => spec_traceable(m, m.slots.len(), (here + 1) as nat),
            _ => true,
        };
        let next = match comp {
            Component::Network(inner) => {
                proof {
                    slot.lemma_component_is_part();
                    assert(cm == ComponentModel::Network(inner@));
                }
                match declare_children(inner, here + 1, out) {
                    Some(next) => {
                        assert(lines_view(out@) == headed + wanted.0 && next == wanted.1 && fits);
                        next
                    },
                    None => {
                        assert(!fits);
                        assert(!spec_traceable(nm, (c + 1) as nat, j as nat));
                        proof {
                            lemma_not_traceable(nm, (c + 1) as nat, n as nat, j as nat);
                        }
                        return None;
                    },
                }
            },
            _ => {
                proof {
                    comp.lemma_kind();
                }
                assert(!(cm is Network));
                assert(lines_view(out@) =~= headed + wanted.0 && here + 1 == wanted.1 && fits);
                here + 1
            },
        };
        assert(lines_view(out@) == headed + wanted.0 && next == wanted.1 && fits);
        let ghost inner_done = lines_view(out@);
        out.push(TraceItem::Leave);
        proof {
            assert(lines_view(out@) =~= inner_done + seq![TraceLine::Leave]);
            let prev = spec_children(nm, c as nat, j as nat).0;
            let head = seq![TraceLine::Enter(instance@)] + spec_wires(
                instance@,
                here as nat,
                cm.input_names(),
                cm.output_names(),
            );
            assert(headed =~= start + prev + head);
            let inner = wanted;
            assert(inner_done =~= headed + inner.0);
            assert(next == inner.1);
            let all = spec_children(nm, (c + 1) as nat, j as nat);
            assert(all == (prev + head + inner.0 + seq![TraceLine::Leave], inner.1));
            assert(lines_view(out@) =~= start + all.0);
            assert(spec_traceable(nm, (c + 1) as nat, j as nat));
        }
        here = next;
        c += 1;
    }
    Some(here)
}

/// Where the first `k` slots cannot be declared, more cannot either.
proof fn lemma_not_traceable(net: NetModel, k: nat, n: nat, j: nat)
    requires
        1 <= k <= n <= net.slots.len(),
        !spec_traceable(net, k, j),
    ensures
        !spec_traceable(net, n, j),
    decreases n - k,
{
    if k < n {
        lemma_not_traceable(net, k, (n - 1) as nat, j);
    }
}

/// The declarations of a component for a trace, if they fit the machine:
/// for a network, its own scope with the wires at its ports, numbered 0,
/// and in it the scopes of its slots; for a primitive, nothing.
pub fn trace_layout(c: &Component) -> (r: Option<Vec<TraceItem>>)
    ensures
        r is Some ==> lines_view(r->0@) == spec_layout(c@),
        r is None ==> c@ is Network && (c@->Network_0.info.inputs.len()
            + c@->Network_0.info.outputs.len() > usize::MAX || !spec_traceable(
            c@->Network_0,
            c@->Network_0.slots.len(),
            1,
        )),
{
    let mut out: Vec<TraceItem> = Vec::new();
    assert(lines_view(out@) =~= Seq::<TraceLine>::empty());
    proof {
        c.lemma_kind();
    }
    match c {
        Component::Network(net) => {
            let names = net.port_names();
            if names.input.len() > usize::MAX - names.output.len() {
                return None;
            }
            let instance = instance_name(net.name(), 0);
            out.push(TraceItem::Enter(instance.clone()));
            assert(lines_view(out@) =~= seq![TraceLine::Enter(instance@)]);
            push_wires(&mut out, &instance, 0, &names);
            match declare_children(net, 1, &mut out) {
                Some(_) => {},
                None => {
                    return None;
                },
            }
            let ghost before = lines_view(out@);
            out.push(TraceItem::Leave);
            assert(lines_view(out@) =~= before + seq![TraceLine::Leave]);
            assert(c@ == ComponentModel::Network(net@));
            assert(lines_view(out@) =~= spec_layout(c@));
            Some(out)
        },
        _ => Some(out),
    }
}

/// Appends the values at the ports of the instance number `j`.
fn push_values(out: &mut Vec<(InstanceIndex, Bit)>, j: usize, ins: &Vec<Bit>, outs: &Vec<Bit>)
    requires
        ins@.len() + outs@.len() <= usize::MAX,
    ensures
        values_view(final(out)@) == values_view(old(out)@) + spec_port_values(
            j as nat,
            ins@ + outs@,
        ),
{
    let ghost start = values_view(out@);
    let ghost bits = ins@ + outs@;
    let ghost want = spec_port_values(j as nat, bits);
    let n_in = ins.len();
    let mut p: usize = 0;
    assert(values_view(out@) =~= start + want.take(0));
    while p < n_in
        invariant
            p <= n_in,
            n_in == ins@.len(),
            bits == ins@ + outs@,
            want == spec_port_values(j as nat, bits),
            values_view(out@) == start + want.take(p as int),
        decreases n_in - p,
    {
        let ghost before = values_view(out@);
        out.push((InstanceIndex::new(j, p), ins[p]));
        proof {
            assert(values_view(out@) =~= before.push(want[p as int]));
            assert(want.take(p + 1) =~= want.take(p as int).push(want[p as int]));
        }
        p += 1;
    }
    let mut q: usize = 0;
    while q < outs.len()
        invariant
            q <= outs@.len(),
            n_in == ins@.len(),
            n_in + outs@.len() <= usize::MAX,
            bits == ins@ + outs@,
            want == spec_port_values(j as nat, bits),
            values_view(out@) == start + want.take(n_in + q),
        decreases outs@.len() - q,
    {
        let ghost before = values_view(out@);
        out.push((InstanceIndex::new(j, n_in + q), outs[q]));
        proof {
            assert(values_view(out@) =~= before.push(want[n_in + q]));
            assert(want.take(n_in + q + 1) =~= want.take(n_in + q).push(want[n_in + q]));
        }
        q += 1;
    }
    assert(want.take(n_in + outs@.len()) =~= want);
}

/// Whether the values at the slots 1 to `k - 1` of the network, the first
/// instance numbered `j`, fit the machine.
pub open spec fn spec_values_fit(net: NetModel, k: nat, j: nat) -> bool
    decreases net, k,
{
    if k <= 1 || k > net.slots.len() {
        j <= usize::MAX
    } else {
        let here = spec_child_values(net, (k - 1) as nat, j).1;
        let slot = net.slots[k - 1];
        &&& spec_values_fit(net, (k - 1) as nat, j)
        &&& here < usize::MAX
        &&& slot.input.len() + slot.output.len() <= usize::MAX
        &&& match slot.comp {
            ComponentModel::Network(n) => spec_values_fit(n, n.slots.len(), here + 1),
            _ => true,
        }
    }
}

proof fn lemma_values_do_not_fit(net: NetModel, k: nat, n: nat, j: nat)
    requires
        1 <= k <= n <= net.slots.len(),
        !spec_values_fit(net, k, j),
    ensures
        !spec_values_fit(net, n, j),
    decreases n - k,
{
    if k < n {
        lemma_values_do_not_fit(net, k, (n - 1) as nat, j);
    }
}

/// Appends the values at the slots of the network, the first instance
/// numbered `j`, and returns the number after the last instance; or stops,
/// where they do not fit the machine.
fn child_values(net: &Network, j: usize, out: &mut Vec<(InstanceIndex, Bit)>) -> (r: Option<usize>)
    ensures
        r is Some <==> spec_values_fit(net@, net@.slots.len(), j as nat),
        r is Some ==> {
            &&& values_view(final(out)@) == values_view(old(out)@) + spec_child_values(
                net@,
                net@.slots.len(),
                j as nat,
            ).0
            &&& r->0 == spec_child_values(net@, net@.slots.len(), j as nat).1
        },
    decreases net,
{
    let ghost start = values_view(out@);
    let ghost nm = net@;
    let n = net.components.len();
    let mut here = j;
    let mut c: usize = 1;
    assert(values_view(out@) =~= start + spec_child_values(nm, 1, j as nat).0);
    if n == 0 {
        assert(values_view(out@) =~= start + spec_child_values(nm, 0, j as nat).0);
        return Some(j);
    }
    while c < n
        invariant
            1 <= c <= n,
            n == nm.slots.len(),
            n == net.components@.len(),
            nm == net@,
            spec_values_fit(nm, c as nat, j as nat),
            here == spec_child_values(nm, c as nat, j as nat).1,
            values_view(out@) == start + spec_child_values(nm, c as nat, j as nat).0,
        decreases n - c,
    {
        assert(nm.slots[c as int] == net.components@[c as int]@);
        let slot = &net.components[c];
        let comp = slot.component();
        if slot.input().len() > usize::MAX - slot.output().len() || here == usize::MAX {
            assert(!spec_values_fit(nm, (c + 1) as nat, j as nat));
            proof {
                lemma_values_do_not_fit(nm, (c + 1) as nat, n as nat, j as nat);
            }
            return None;
        }
        let ghost before = values_view(out@);
        push_values(out, here, slot.input(), slot.output());
        let ghost headed = values_view(out@);
        let ghost sm = nm.slots[c as int];
        assert(sm.comp == comp@);
        let ghost wanted = match sm.comp {
            ComponentModel::Network(m) => spec_child_values(m, m.slots.len(), (here + 1) as nat),
            _ => (Seq::<(nat, nat, Bit)>::empty(), (here + 1) as nat),
        };
        let ghost fits = match sm.comp {
            ComponentModel::Network(m) => spec_values_fit(m, m.slots.len(), (here + 1) as nat),
            _ => true,
        };
        let next = match comp {
            Component::Network(inner) => {
                proof {
                    slot.lemma_component_is_part();
                    assert(sm.comp == ComponentModel::Network(inner@));
                }
                match child_values(inner, here + 1, out) {
                    Some(next) => {
                        assert(values_view(out@) == headed + wanted.0 && next == wanted.1 && fits);
                        next
                    },
                    None => {
                        assert(!fits);
                        assert(!spec_values_fit(nm, (c + 1) as nat, j as nat));
                        proof {
                            lemma_values_do_not_fit(nm, (c + 1) as nat, n as nat, j as nat);
                        }
                        return None;
                    },
                }
            },
            _ => {
                proof {
                    comp.lemma_kind();
                }
                assert(!(sm.comp is Network));
                assert(values_view(out@) =~= headed + wanted.0 && here + 1 == wanted.1 && fits);
                here + 1
            },
        };
        assert(values_view(out@) == headed + wanted.0 && next == wanted.1 && fits);
        proof {
            let prev = spec_child_values(nm, c as nat, j as nat).0;
            let head = spec_port_values(here as nat, sm.input + sm.output);
            assert(headed =~= start + prev + head);
            let inner = wanted;
            assert(values_view(out@) =~= headed + inner.0);
            assert(next == inner.1);
            let all = spec_child_values(nm, (c + 1) as nat, j as nat);
            assert(all == (prev + head + inner.0, inner.1));
            assert(values_view(out@) =~= start + all.0);
            assert(spec_values_fit(nm, (c + 1) as nat, j as nat));
        }
        here = next;
        c += 1;
    }
    Some(here)
}

/// The values of all signals of a component, in the order of the
/// declarations, each with the place that its wire was declared with; if
/// they fit the machine.
pub fn trace_values(c: &Component) -> (r: Option<Vec<(InstanceIndex, Bit)>>)
    requires
        c@ is Network ==> c@->Network_0.slots.len() >= 1,
    ensures
        r is Some ==> values_view(r->0@) == spec_values(c@),
        r is None ==> c@ is Network && (c@->Network_0.input().len() + c@->Network_0.output().len()
            > usize::MAX || !spec_values_fit(c@->Network_0, c@->Network_0.slots.len(), 1)),
{
    let mut out: Vec<(InstanceIndex, Bit)> = Vec::new();
    assert(values_view(out@) =~= Seq::<(nat, nat, Bit)>::empty());
    proof {
        c.lemma_kind();
    }
    match c {
        Component::Network(net) => {
            let ins = net.input();
            let outs = net.output();
            if ins.len() > usize::MAX - outs.len() {
                return None;
            }
            push_values(&mut out, 0, &ins, &outs);
            match child_values(net, 1, &mut out) {
                Some(_) => {
                    assert(c@ == ComponentModel::Network(net@));
                    assert(values_view(out@) =~= spec_values(c@));
                    Some(out)
                },
                None => None,
            }
        },
        _ => Some(out),
    }
}

} // verus!
