//! A tick leaves every changed output at the pins that it feeds, where each
//! pin is fed by one output at most.

use crate::bit::Bit;
use crate::model::{Index, NetModel};
use vstd::prelude::*;

verus! {

impl NetModel {
    /// Whether each input pin is fed by one output at most: it stands in the
    /// fan-out list of one output pin only.
    pub open spec fn single_fed(self) -> bool {
        forall|c1: int, o1: int, k1: int, c2: int, o2: int, k2: int|
            #![trigger self.connections[c1][o1][k1], self.connections[c2][o2][k2]]
            0 <= c1 < self.connections.len() && 0 <= o1 < self.connections[c1].len() && 0 <= k1
                < self.connections[c1][o1].len() && 0 <= c2 < self.connections.len() && 0 <= o2
                < self.connections[c2].len() && 0 <= k2 < self.connections[c2][o2].len()
                && self.connections[c1][o1][k1] == self.connections[c2][o2][k2] ==> c1 == c2 && o1
                == o2
    }

    /// After a delivery the pin holds the value, and every other pin what it
    /// held.
    pub proof fn lemma_deliver_pins(self, t: Index, v: Bit)
        requires
            self.valid_target(t),
            self.dirty.len() == self.slots.len(),
        ensures
            self.deliver(t, v).pin(t) == v,
            forall|u: Index|
                u != t && self.valid_target(u) ==> #[trigger] self.deliver(t, v).pin(u) == self.pin(
                    u,
                ),
    {
    }

    /// After deliveries the pins hold the value, and every other pin what it
    /// held.
    pub proof fn lemma_deliver_all_pins(self, targets: Seq<Index>, v: Bit)
        requires
            forall|k: int| 0 <= k < targets.len() ==> self.valid_target(#[trigger] targets[k]),
            self.dirty.len() == self.slots.len(),
        ensures
            forall|k: int|
                0 <= k < targets.len() ==> self.deliver_all(targets, v).pin(#[trigger] targets[k])
                    == v,
            forall|u: Index|
                !targets.contains(u) && self.valid_target(u) ==> #[trigger] self.deliver_all(
                    targets,
                    v,
                ).pin(u) == self.pin(u),
        decreases targets.len(),
    {
        if targets.len() > 0 {
            let head = targets.drop_last();
            let t = targets.last();
            assert forall|k: int| 0 <= k < head.len() implies self.valid_target(#[trigger] head[k]) by {
                assert(head[k] == targets[k]);
            }
            self.lemma_deliver_all_pins(head, v);
            self.lemma_deliver_all_frame(head, v);
            let mid = self.deliver_all(head, v);
            assert(self.valid_target(t));
            assert forall|u: Index| self.valid_target(u) implies mid.valid_target(u) by {
                assert(mid.slots[u.comp_id as int].input.len() == self.slots[u.comp_id as int].input.len());
            }
            mid.lemma_deliver_pins(t, v);
            let r = mid.deliver(t, v);
            assert forall|k: int| 0 <= k < targets.len() implies r.pin(#[trigger] targets[k])
                == v by {
                let u = targets[k];
                if u != t {
                    assert(k < head.len());
                    assert(head[k] == u);
                    assert(mid.pin(head[k]) == v);
                    assert(r.pin(u) == mid.pin(u));
                }
            }
            assert forall|u: Index| !targets.contains(u) && self.valid_target(u) implies #[trigger] r.pin(
                u,
            ) == self.pin(u) by {
                assert(u != t) by {
                    if u == t {
                        assert(targets[targets.len() - 1] == u);
                    }
                }
                assert(!head.contains(u)) by {
                    if head.contains(u) {
                        let k = choose|k: int| 0 <= k < head.len() && head[k] == u;
                        assert(targets[k] == u);
                    }
                }
                assert(mid.pin(u) == self.pin(u));
                assert(r.pin(u) == mid.pin(u));
            }
        }
    }

    /// Whether none of the first `m` fan-out lists of the slot `s` holds the
    /// pin `u`.
    pub open spec fn unfed_by(self, s: int, m: nat, u: Index) -> bool {
        forall|o: int| 0 <= o < m ==> !(#[trigger] self.connections[s][o]).contains(u)
    }

    /// After the first `m` outputs of a slot are delivered, the pins that
    /// they feed hold them, and every other pin holds what it held.
    pub proof fn lemma_ports_pins(self, s: int, m: nat)
        requires
            self.wf(),
            self.single_fed(),
            0 <= s < self.slots.len(),
            m <= self.connections[s].len(),
        ensures
            forall|o: int, k: int|
                0 <= o < m && 0 <= k < self.connections[s][o].len() ==> self.propagate_ports(
                    s,
                    m,
                ).pin(#[trigger] self.connections[s][o][k]) == self.slots[s].output[o],
            forall|u: Index|
                self.unfed_by(s, m, u) && self.valid_target(u) ==> #[trigger] self.propagate_ports(
                    s,
                    m,
                ).pin(u) == self.pin(u),
        decreases m,
    {
        if m > 0 {
            let n = (m - 1) as nat;
            self.lemma_ports_pins(s, n);
            self.lemma_propagate_ports_frame(s, n);
            let mid = self.propagate_ports(s, n);
            let targets = self.connections[s][m - 1];
            let v = self.slots[s].output[m - 1];
            assert forall|u: Index| self.valid_target(u) implies mid.valid_target(u) by {
                assert(mid.slots[u.comp_id as int].input.len() == self.slots[u.comp_id as int].input.len());
            }
            assert forall|k: int| 0 <= k < targets.len() implies mid.valid_target(
                #[trigger] targets[k],
            ) by {
                assert(self.valid_target(self.connections[s][m - 1][k]));
            }
            mid.lemma_deliver_all_pins(targets, v);
            let r = mid.deliver_all(targets, v);
            assert forall|o: int, k: int|
                0 <= o < m && 0 <= k < self.connections[s][o].len() implies r.pin(
                #[trigger] self.connections[s][o][k],
            ) == self.slots[s].output[o] by {
                let u = self.connections[s][o][k];
                assert(self.valid_target(u));
                if o == m - 1 {
                    assert(targets[k] == u);
                } else {
                    assert(!targets.contains(u)) by {
                        if targets.contains(u) {
                            let j = choose|j: int| 0 <= j < targets.len() && targets[j] == u;
                            assert(self.connections[s][m - 1][j] == self.connections[s][o][k]);
                        }
                    }
                    assert(r.pin(u) == mid.pin(u));
                }
            }
            assert forall|u: Index| self.unfed_by(s, m, u) && self.valid_target(u) implies #[trigger] r.pin(
                u,
            ) == self.pin(u) by {
                assert(!self.connections[s][m - 1].contains(u));
                assert(self.unfed_by(s, n, u));
                assert(mid.pin(u) == self.pin(u));
                assert(r.pin(u) == mid.pin(u));
            }
        }
    }

    /// Whether no slot of the slots 1 to `n - 1` whose output is marked as
    /// changed feeds the pin `u`.
    pub open spec fn unfed_by_changed(self, n: nat, u: Index) -> bool {
        forall|c: int|
            1 <= c < n && (#[trigger] self.slots[c]).output_changed ==> self.unfed_by(
                c,
                self.connections[c].len(),
                u,
            )
    }

    /// After the third phase of a tick, up to the slot `n - 1`, every pin
    /// fed by a slot whose output is marked as changed holds that output,
    /// and every other pin holds what it held.
    pub proof fn lemma_changed_pins(self, n: nat)
        requires
            self.wf(),
            self.single_fed(),
            n <= self.slots.len(),
        ensures
            forall|c: int, o: int, k: int|
                1 <= c < n && self.slots[c].output_changed && 0 <= o < self.connections[c].len()
                    && 0 <= k < self.connections[c][o].len() ==> self.propagate_changed(n).pin(
                    #[trigger] self.connections[c][o][k],
                ) == self.slots[c].output[o],
            forall|u: Index|
                self.unfed_by_changed(n, u) && self.valid_target(u)
                    ==> #[trigger] self.propagate_changed(n).pin(u) == self.pin(u),
        decreases n,
    {
        if n > 1 {
            let m = (n - 1) as nat;
            let s = n - 1;
            self.lemma_changed_pins(m);
            self.lemma_propagate_changed_frame(m);
            let before = self.propagate_changed(m);
            let r = self.propagate_changed(n);
            assert forall|u: Index| self.valid_target(u) implies before.valid_target(u) by {
                assert(before.slots[u.comp_id as int].input.len() == self.slots[u.comp_id as int].input.len());
            }
            if self.slots[s].output_changed {
                assert(before.single_fed());
                assert(before.slots[s].output == self.slots[s].output);
                before.lemma_ports_pins(s, before.connections[s].len());
                assert forall|c: int, o: int, k: int|
                    1 <= c < n && self.slots[c].output_changed && 0 <= o
                        < self.connections[c].len() && 0 <= k
                        < self.connections[c][o].len() implies r.pin(
                    #[trigger] self.connections[c][o][k],
                ) == self.slots[c].output[o] by {
                    let u = self.connections[c][o][k];
                    assert(self.valid_target(u));
                    if c != s {
                        assert(before.unfed_by(s, before.connections[s].len(), u)) by {
                            assert forall|p: int|
                                0 <= p < before.connections[s].len() implies !(
                            #[trigger] before.connections[s][p]).contains(u) by {
                                if self.connections[s][p].contains(u) {
                                    let j = choose|j: int|
                                        0 <= j < self.connections[s][p].len()
                                            && self.connections[s][p][j] == u;
                                    assert(self.connections[s][p][j] == self.connections[c][o][k]);
                                }
                            }
                        }
                        assert(r.pin(u) == before.pin(u));
                    } else {
                        assert(before.connections[s][o][k] == u);
                    }
                }
                assert forall|u: Index|
                    self.unfed_by_changed(n, u) && self.valid_target(u) implies #[trigger] r.pin(u)
                    == self.pin(u) by {
                    assert(self.slots[s].output_changed);
                    assert(self.unfed_by(s, self.connections[s].len(), u));
                    assert(self.unfed_by_changed(m, u));
                    assert(before.pin(u) == self.pin(u));
                    assert(r.pin(u) == before.pin(u));
                }
            } else {
                assert forall|u: Index|
                    self.unfed_by_changed(n, u) && self.valid_target(u) implies #[trigger] r.pin(u)
                    == self.pin(u) by {
                    assert(self.unfed_by_changed(m, u));
                }
            }
        }
    }

    /// A tick of a network in which each pin is fed by one output at most
    /// leaves every changed output at the pins that it feeds. If it leaves
    /// no slot due for evaluation, the network is settled: a tick with the
    /// same input then does nothing.
    pub proof fn lemma_tick_delivers(self, input: Seq<Bit>, post: NetModel, out: Seq<Bit>)
        requires
            self.wf(),
            self.single_fed(),
            input.len() == self.num_inputs(),
            self.steps_to(input, post, out),
        ensures
            post.single_fed(),
            post.delivered(),
            post.quiet() ==> post.settled(),
            post.input() == input,
    {
        let mid = choose|mid: NetModel|
            {
                &&& self.evaluated(self.commit_input(input), mid)
                &&& post == #[trigger] mid.propagate_all()
                &&& out == post.output()
            };
        let p1 = self.commit_input(input);
        self.lemma_commit_wf(input);
        self.lemma_evaluated_wf(p1, mid);
        mid.lemma_propagate_changed_frame(mid.slots.len());
        assert(mid.connections == self.connections);
        assert(mid.single_fed());
        mid.lemma_changed_pins(mid.slots.len());
        assert forall|c: int, o: int|
            1 <= c < post.slots.len() && post.slots[c].output_changed && 0 <= o
                < post.connections[c].len() implies #[trigger] post.port_delivered(c, o) by {
            assert(mid.slots[c].output_changed);
            assert forall|k: int| 0 <= k < post.connections[c][o].len() implies {
                let t = #[trigger] post.connections[c][o][k];
                post.slots[t.comp_id as int].input[t.input_id as int] == post.slots[c].output[o]
            } by {
                assert(post.pin(mid.connections[c][o][k]) == mid.slots[c].output[o]);
            }
        }
        assert(post.input() == input) by {
            self.lemma_committed(input);
            assert(mid.slots[0] == p1.slots[0]);
        }
    }

    /// The first phase of a tick leaves the input at the outputs of the
    /// boundary.
    pub proof fn lemma_committed(self, input: Seq<Bit>)
        requires
            self.wf(),
            input.len() == self.num_inputs(),
        ensures
            self.commit_input(input).slots[0].output == input,
    {
        if self.slots[0].output != input {
            let staged = self.with_slot(0, crate::model::SlotModel { output: input, ..self.slots[0] });
            self.lemma_boundary_wf(crate::model::SlotModel { output: input, ..self.slots[0] });
            staged.lemma_propagate_ports_frame(0, staged.connections[0].len());
        }
    }
}

} // verus!
