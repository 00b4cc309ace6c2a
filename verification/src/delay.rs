//! How long a change of the input takes to reach the output: one tick for
//! each slot on the way.

use crate::bit::Bit;
use crate::model::{Index, NetModel, SlotModel};
use vstd::prelude::*;

verus! {

impl NetModel {
    /// The value at the input pin `t`.
    pub open spec fn pin(self, t: Index) -> Bit {
        self.slots[t.comp_id as int].input[t.input_id as int]
    }

    /// Whether `other` has the slots of `self` in number, with as many input
    /// pins each, and the same wiring and signature.
    pub open spec fn same_shape(self, other: NetModel) -> bool {
        &&& other.info == self.info
        &&& other.connections == self.connections
        &&& other.slots.len() == self.slots.len()
        &&& other.dirty.len() == self.dirty.len()
        &&& forall|c: int|
            0 <= c < self.slots.len() ==> (#[trigger] other.slots[c]).input.len()
                == self.slots[c].input.len()
    }

    /// Whether `lv` bounds from below, for each slot, the number of slots
    /// that a value passes on its way from an input of the network up to
    /// and through the slot, and `lv[0]` the number of slots that it passes
    /// on its way to an output of the network: a slot fed by an input of
    /// the network has at most 1, a slot fed by another slot at most one
    /// more than that slot, and an output of the network at most as many as
    /// a slot that feeds it, and 0 if an input feeds it directly.
    pub open spec fn leveled(self, lv: Seq<nat>) -> bool {
        &&& lv.len() == self.slots.len()
        &&& forall|s: int, o: int, k: int|
            0 <= s < self.connections.len() && 0 <= o < self.connections[s].len() && 0 <= k
                < self.connections[s][o].len() ==> self.level_allows(
                lv,
                s,
                #[trigger] self.connections[s][o][k],
            )
    }

    /// Whether the levels allow the slot `s` to feed the pin `t`.
    pub open spec fn level_allows(self, lv: Seq<nat>, s: int, t: Index) -> bool {
        let c = t.comp_id as int;
        if s == 0 {
            if c == 0 {
                lv[0] == 0
            } else {
                lv[c] <= 1
            }
        } else {
            if c == 0 {
                lv[0] <= lv[s]
            } else {
                lv[c] <= lv[s] + 1
            }
        }
    }

    /// Whether the slots marked in `keep` hold at their input pins what they
    /// hold in `o`, and are not due for evaluation, the boundary apart.
    pub open spec fn guarded(self, o: NetModel, keep: Seq<bool>) -> bool {
        &&& keep.len() == self.slots.len()
        &&& forall|c: int|
            0 <= c < self.slots.len() && #[trigger] keep[c] ==> self.slots[c].input
                == o.slots[c].input && (c >= 1 ==> !self.dirty[c])
    }

    /// Whether the value `v` may be delivered to the pin `t` without harm to
    /// the slots marked in `keep`: the slot of the pin is not marked, or the
    /// pin holds `v` in `o`.
    pub open spec fn harmless(o: NetModel, keep: Seq<bool>, t: Index, v: Bit) -> bool {
        keep[t.comp_id as int] ==> o.pin(t) == v
    }

    /// A harmless delivery leaves the marked slots as they are.
    pub proof fn lemma_guarded_deliver(self, o: NetModel, keep: Seq<bool>, t: Index, v: Bit)
        requires
            self.guarded(o, keep),
            self.valid_target(t),
            self.dirty.len() == self.slots.len(),
            Self::harmless(o, keep, t, v),
        ensures
            self.deliver(t, v).guarded(o, keep),
    {
        let d = self.deliver(t, v);
        let c = t.comp_id as int;
        if keep[c] {
            assert(self.slots[c].input == o.slots[c].input);
            assert(d == self);
        } else {
            assert forall|x: int| 0 <= x < d.slots.len() && #[trigger] keep[x] implies d.slots[x].input
                == o.slots[x].input && (x >= 1 ==> !d.dirty[x]) by {
                assert(x != c);
                assert(self.slots[x].input == o.slots[x].input);
            }
        }
    }

    /// Harmless deliveries leave the marked slots as they are.
    pub proof fn lemma_guarded_deliver_all(
        self,
        o: NetModel,
        keep: Seq<bool>,
        targets: Seq<Index>,
        v: Bit,
    )
        requires
            self.guarded(o, keep),
            self.dirty.len() == self.slots.len(),
            forall|k: int| 0 <= k < targets.len() ==> self.valid_target(#[trigger] targets[k]),
            forall|k: int|
                0 <= k < targets.len() ==> Self::harmless(o, keep, #[trigger] targets[k], v),
        ensures
            self.deliver_all(targets, v).guarded(o, keep),
        decreases targets.len(),
    {
        if targets.len() > 0 {
            let head = targets.drop_last();
            assert forall|k: int| 0 <= k < head.len() implies self.valid_target(#[trigger] head[k])
                && Self::harmless(o, keep, head[k], v) by {
                assert(head[k] == targets[k]);
            }
            self.lemma_guarded_deliver_all(o, keep, head, v);
            self.lemma_deliver_all_frame(head, v);
            let mid = self.deliver_all(head, v);
            let t = targets.last();
            assert(self.valid_target(t));
            assert(mid.slots[t.comp_id as int].input.len() == self.slots[t.comp_id as int].input.len());
            mid.lemma_guarded_deliver(o, keep, t, v);
        }
    }

    /// Whether all that the slot `s` delivers is harmless.
    pub open spec fn feeds_harmlessly(self, o: NetModel, keep: Seq<bool>, s: int) -> bool {
        forall|p: int, k: int|
            0 <= p < self.connections[s].len() && 0 <= k < self.connections[s][p].len()
                ==> Self::harmless(
                o,
                keep,
                #[trigger] self.connections[s][p][k],
                self.slots[s].output[p],
            )
    }

    /// Delivering the outputs of a slot that feeds harmlessly leaves the
    /// marked slots as they are.
    pub proof fn lemma_guarded_ports(self, o: NetModel, keep: Seq<bool>, s: int, n: nat)
        requires
            self.wf(),
            self.guarded(o, keep),
            0 <= s < self.slots.len(),
            n <= self.connections[s].len(),
            self.feeds_harmlessly(o, keep, s),
        ensures
            self.propagate_ports(s, n).guarded(o, keep),
        decreases n,
    {
        if n > 0 {
            self.lemma_guarded_ports(o, keep, s, (n - 1) as nat);
            self.lemma_propagate_ports_frame(s, (n - 1) as nat);
            let mid = self.propagate_ports(s, (n - 1) as nat);
            let targets = self.connections[s][n - 1];
            let v = self.slots[s].output[n - 1];
            assert forall|k: int| 0 <= k < targets.len() implies mid.valid_target(
                #[trigger] targets[k],
            ) && Self::harmless(o, keep, targets[k], v) by {
                let t = self.connections[s][n - 1][k];
                assert(self.valid_target(t));
                assert(mid.slots[t.comp_id as int].input.len() == self.slots[t.comp_id as int].input.len());
            }
            mid.lemma_guarded_deliver_all(o, keep, targets, v);
        }
    }

    /// The third phase of a tick leaves the marked slots as they are, if
    /// every slot whose output is marked as changed feeds harmlessly.
    pub proof fn lemma_guarded_changed(self, o: NetModel, keep: Seq<bool>, n: nat)
        requires
            self.wf(),
            self.guarded(o, keep),
            n <= self.slots.len(),
            forall|s: int|
                1 <= s < n && (#[trigger] self.slots[s]).output_changed ==> self.feeds_harmlessly(
                    o,
                    keep,
                    s,
                ),
        ensures
            self.propagate_changed(n).guarded(o, keep),
        decreases n,
    {
        if n > 1 {
            self.lemma_guarded_changed(o, keep, (n - 1) as nat);
            self.lemma_propagate_changed_frame((n - 1) as nat);
            let before = self.propagate_changed((n - 1) as nat);
            let s = n - 1;
            if self.slots[s].output_changed {
                assert(self.feeds_harmlessly(o, keep, s));
                assert(before.feeds_harmlessly(o, keep, s)) by {
                    assert(before.slots[s].output == self.slots[s].output);
                }
                before.lemma_guarded_ports(o, keep, s, before.connections[s].len());
            }
        }
    }

    /// Whether `t` ticks after the state `o` no slot with a level over `t`
    /// has been evaluated, and none with a level over `t + 1` has been
    /// delivered to; and the outputs of the network hold what they held, if
    /// their level is over `t`.
    pub open spec fn untouched(self, o: NetModel, lv: Seq<nat>, t: nat) -> bool {
        &&& o.same_shape(self)
        &&& forall|c: int|
            1 <= c < self.slots.len() && lv[c] > t ==> {
                &&& (#[trigger] self.slots[c]).output == o.slots[c].output
                &&& self.slots[c].comp == o.slots[c].comp
                &&& self.slots[c].output_changed == o.slots[c].output_changed
            }
        &&& self.guarded(o, Self::kept(lv, t))
    }

    /// The slots with a level over `t + 1`, and the boundary if its level is
    /// over `t`.
    pub open spec fn kept(lv: Seq<nat>, t: nat) -> Seq<bool> {
        Seq::new(
            lv.len(),
            |c: int|
                if c == 0 {
                    lv[0] > t
                } else {
                    lv[c] > t + 1
                },
        )
    }

    /// One tick more touches one level more: if no slot with a level over
    /// `t` was evaluated before the tick, none with a level over `t + 1` is
    /// after it, whatever the input of the tick.
    pub proof fn lemma_tick_touches_one_level(
        self,
        o: NetModel,
        lv: Seq<nat>,
        t: nat,
        input: Seq<Bit>,
        post: NetModel,
        out: Seq<Bit>,
    )
        requires
            o.wf(),
            o.delivered(),
            o.leveled(lv),
            self.wf(),
            self.untouched(o, lv, t),
            input.len() == self.num_inputs(),
            self.steps_to(input, post, out),
        ensures
            post.untouched(o, lv, (t + 1) as nat),
            lv[0] > t + 1 ==> out == o.output(),
    {
        let keep_a = Self::kept(lv, t);
        let keep_b = Self::kept(lv, (t + 1) as nat);
        let mid = choose|mid: NetModel|
            {
                &&& self.evaluated(self.commit_input(input), mid)
                &&& post == #[trigger] mid.propagate_all()
                &&& out == post.output()
            };
        let p1 = self.commit_input(input);
        // the first phase
        self.lemma_commit_wf(input);
        assert(p1.guarded(o, keep_a)) by {
            if self.slots[0].output == input {
                self.lemma_boundary_wf(SlotModel { output_changed: false, ..self.slots[0] });
                assert(p1.guarded(o, keep_a)) by {
                    assert forall|c: int|
                        0 <= c < p1.slots.len() && #[trigger] keep_a[c] implies p1.slots[c].input
                        == o.slots[c].input && (c >= 1 ==> !p1.dirty[c]) by {
                        assert(self.slots[c].input == o.slots[c].input);
                    }
                }
            } else {
                let staged = self.with_slot(0, SlotModel { output: input, ..self.slots[0] });
                self.lemma_boundary_wf(SlotModel { output: input, ..self.slots[0] });
                assert(staged.guarded(o, keep_a)) by {
                    assert forall|c: int|
                        0 <= c < staged.slots.len() && #[trigger] keep_a[c] implies staged.slots[c].input
                        == o.slots[c].input && (c >= 1 ==> !staged.dirty[c]) by {
                        assert(self.slots[c].input == o.slots[c].input);
                    }
                }
                assert(staged.feeds_harmlessly(o, keep_a, 0)) by {
                    assert forall|p: int, k: int|
                        0 <= p < staged.connections[0].len() && 0 <= k
                            < staged.connections[0][p].len() implies Self::harmless(
                        o,
                        keep_a,
                        #[trigger] staged.connections[0][p][k],
                        staged.slots[0].output[p],
                    ) by {
                        let x = o.connections[0][p][k];
                        assert(o.level_allows(lv, 0, x));
                        assert(o.valid_target(x));
                    }
                }
                staged.lemma_guarded_ports(o, keep_a, 0, staged.connections[0].len());
            }
        }
        // the second phase
        assert(mid.slots.len() == p1.slots.len());
        assert forall|c: int| 1 <= c < self.slots.len() && lv[c] > t + 1 implies mid.slots[c]
            == p1.slots[c] && !mid.dirty[c] by {
            assert(keep_a[c]);
            assert(!p1.dirty[c]);
        }
        assert(mid.guarded(o, keep_b)) by {
            assert forall|c: int|
                0 <= c < mid.slots.len() && #[trigger] keep_b[c] implies mid.slots[c].input
                == o.slots[c].input && (c >= 1 ==> !mid.dirty[c]) by {
                assert(keep_a[c]);
                if c >= 1 {
                    assert(mid.slots[c] == p1.slots[c]);
                }
            }
        }
        self.lemma_evaluated_wf(p1, mid);
        // the third phase
        assert forall|s: int|
            1 <= s < mid.slots.len() && (#[trigger] mid.slots[s]).output_changed implies mid.feeds_harmlessly(
            o,
            keep_b,
            s,
        ) by {
            assert forall|p: int, k: int|
                0 <= p < mid.connections[s].len() && 0 <= k
                    < mid.connections[s][p].len() implies Self::harmless(
                o,
                keep_b,
                #[trigger] mid.connections[s][p][k],
                mid.slots[s].output[p],
            ) by {
                let x = o.connections[s][p][k];
                assert(o.level_allows(lv, s, x));
                assert(o.valid_target(x));
                if keep_b[x.comp_id as int] {
                    assert(lv[s] > t + 1);
                    assert(mid.slots[s] == p1.slots[s]);
                    assert(p1.slots[s].output == self.slots[s].output);
                    assert(self.slots[s].output == o.slots[s].output);
                    assert(o.slots[s].output_changed);
                    assert(o.port_delivered(s, p));
                }
            }
        }
        mid.lemma_guarded_changed(o, keep_b, mid.slots.len());
        mid.lemma_propagate_changed_frame(mid.slots.len());
        assert(post.untouched(o, lv, (t + 1) as nat)) by {
            assert forall|c: int| 1 <= c < post.slots.len() && lv[c] > t + 1 implies {
                &&& (#[trigger] post.slots[c]).output == o.slots[c].output
                &&& post.slots[c].comp == o.slots[c].comp
                &&& post.slots[c].output_changed == o.slots[c].output_changed
            } by {
                assert(mid.slots[c] == p1.slots[c]);
                assert(self.slots[c].output == o.slots[c].output);
            }
        }
        if lv[0] > t + 1 {
            assert(keep_b[0]);
        }
    }
}

/// Whether the states are those of a run of ticks: each follows from the one
/// before it by a tick with the input of that place, which gives the output
/// of that place.
pub open spec fn spec_run(
    states: Seq<NetModel>,
    inputs: Seq<Seq<Bit>>,
    outs: Seq<Seq<Bit>>,
) -> bool {
    &&& states.len() == inputs.len() + 1
    &&& outs.len() == inputs.len()
    &&& forall|i: int|
        0 <= i < inputs.len() ==> inputs[i].len() == states[i].num_inputs() && (
        #[trigger] states[i]).steps_to(inputs[i], states[i + 1], outs[i])
}

/// The propagation delay: in a run of ticks from a settled network, whatever
/// the inputs, the output of the network is the one it showed before the
/// run for as many ticks as there are slots, less one, on the shortest way
/// from an input of the network to an output. A change of the input that
/// has `k` slots to pass is seen at the output at the tick number `k` at
/// the earliest.
pub proof fn lemma_propagation_delay(
    o: NetModel,
    lv: Seq<nat>,
    states: Seq<NetModel>,
    inputs: Seq<Seq<Bit>>,
    outs: Seq<Seq<Bit>>,
    n: nat,
)
    requires
        o.wf(),
        o.settled(),
        o.leveled(lv),
        spec_run(states, inputs, outs),
        states[0] == o,
        n <= inputs.len(),
    ensures
        states[n as int].wf(),
        states[n as int].untouched(o, lv, n),
        forall|i: int| 0 <= i < n && lv[0] > i + 1 ==> #[trigger] outs[i] == o.output(),
    decreases n,
{
    if n == 0 {
        assert(o.untouched(o, lv, 0)) by {
            let keep = NetModel::kept(lv, 0);
            assert forall|c: int| 0 <= c < o.slots.len() && #[trigger] keep[c] implies o.slots[c].input
                == o.slots[c].input && (c >= 1 ==> !o.dirty[c]) by {}
        }
    } else {
        let m = (n - 1) as nat;
        lemma_propagation_delay(o, lv, states, inputs, outs, m);
        let pre = states[m as int];
        let post = states[n as int];
        assert(pre.steps_to(inputs[m as int], states[m as int + 1], outs[m as int]));
        pre.lemma_tick_keeps_shape(inputs[m as int], post, outs[m as int]);
        pre.lemma_tick_touches_one_level(o, lv, m, inputs[m as int], post, outs[m as int]);
    }
}

} // verus!
