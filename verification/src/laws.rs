//! What holds of every gate and of every tick.

use crate::bit::Bit;
use crate::bit::spec_bits_of_u8;
use crate::model::{
    spec_nand, spec_unknown, ComponentModel, Index, NetModel, SlotModel, StdinModel,
};
use crate::stream::ReadOutcome;
use vstd::prelude::*;

verus! {

/// The truth table of the NAND gate: the output is high exactly when some
/// input is low, low exactly when every input is high, and unknown exactly
/// when no input is low and some input is unknown.
pub proof fn lemma_nand_truth_table(input: Seq<Bit>)
    ensures
        spec_nand(input) == Bit::H <==> exists|i: int| 0 <= i < input.len() && input[i] == Bit::L,
        spec_nand(input) == Bit::L <==> forall|i: int| 0 <= i < input.len() ==> input[i] == Bit::H,
        spec_nand(input) == Bit::X <==> (forall|i: int| 0 <= i < input.len() ==> input[i] != Bit::L)
            && exists|i: int| 0 <= i < input.len() && input[i] == Bit::X,
{
    if input.contains(Bit::L) {
        let i = choose|i: int| 0 <= i < input.len() && input[i] == Bit::L;
        assert(input[i] != Bit::H);
    } else if input.contains(Bit::X) {
        let i = choose|i: int| 0 <= i < input.len() && input[i] == Bit::X;
        assert(input[i] != Bit::H);
        assert forall|j: int| 0 <= j < input.len() implies input[j] != Bit::L by {
            if input[j] == Bit::L {
                assert(input.contains(Bit::L));
            }
        }
    } else {
        assert forall|j: int| 0 <= j < input.len() implies input[j] == Bit::H by {
            if input[j] == Bit::L {
                assert(input.contains(Bit::L));
            }
            if input[j] == Bit::X {
                assert(input.contains(Bit::X));
            }
        }
    }
}

impl NetModel {
    /// Whether no slot but the boundary is due for evaluation.
    pub open spec fn quiet(self) -> bool {
        forall|i: int| 1 <= i < self.slots.len() ==> !(#[trigger] self.dirty[i])
    }

    /// Whether every pin in the fan-out of the output pin `o` of slot `c`
    /// holds the value of that output.
    pub open spec fn port_delivered(self, c: int, o: int) -> bool {
        forall|k: int|
            0 <= k < self.connections[c][o].len() ==> {
                let t = #[trigger] self.connections[c][o][k];
                self.slots[t.comp_id as int].input[t.input_id as int] == self.slots[c].output[o]
            }
    }

    /// Whether every pin fed by a slot whose output is marked as changed
    /// holds the value of the output that feeds it.
    pub open spec fn delivered(self) -> bool {
        forall|c: int, o: int|
            1 <= c < self.slots.len() && self.slots[c].output_changed && 0 <= o
                < self.connections[c].len() ==> #[trigger] self.port_delivered(c, o)
    }

    /// Whether a tick with the input unchanged has nothing to do: no slot is
    /// due for evaluation and every changed output has reached its pins.
    pub open spec fn settled(self) -> bool {
        self.quiet() && self.delivered()
    }

    /// The network with the boundary's change flag cleared.
    pub open spec fn acknowledged(self) -> NetModel {
        self.with_slot(0, SlotModel { output_changed: false, ..self.slots[0] })
    }

    /// Delivering a value to pins that hold it changes nothing.
    pub proof fn lemma_deliver_all_same(self, targets: Seq<Index>, v: Bit)
        requires
            forall|k: int|
                0 <= k < targets.len() ==> self.slots[(#[trigger] targets[k]).comp_id as int].input[targets[k].input_id as int]
                    == v,
        ensures
            self.deliver_all(targets, v) == self,
        decreases targets.len(),
    {
        if targets.len() > 0 {
            let head = targets.drop_last();
            assert forall|k: int| 0 <= k < head.len() implies self.slots[(
            #[trigger] head[k]).comp_id as int].input[head[k].input_id as int] == v by {
                assert(head[k] == targets[k]);
            }
            self.lemma_deliver_all_same(head, v);
            let t = targets[targets.len() - 1];
            assert(self.slots[t.comp_id as int].input[t.input_id as int] == v);
        }
    }

    /// Delivering outputs that have reached their pins changes nothing.
    pub proof fn lemma_propagate_ports_same(self, c: int, n: nat)
        requires
            n <= self.connections[c].len(),
            forall|o: int| 0 <= o < self.connections[c].len() ==> #[trigger] self.port_delivered(c, o),
        ensures
            self.propagate_ports(c, n) == self,
        decreases n,
    {
        if n > 0 {
            self.lemma_propagate_ports_same(c, (n - 1) as nat);
            assert(self.port_delivered(c, n - 1));
            self.lemma_deliver_all_same(self.connections[c][n - 1], self.slots[c].output[n - 1]);
        }
    }

    /// The third phase of a tick changes nothing in a network whose changed
    /// outputs have all reached their pins.
    pub proof fn lemma_propagate_changed_same(self, n: nat)
        requires
            n <= self.slots.len(),
            self.delivered(),
        ensures
            self.propagate_changed(n) == self,
        decreases n,
    {
        if n > 1 {
            self.lemma_propagate_changed_same((n - 1) as nat);
            if self.slots[n - 1].output_changed {
                assert forall|o: int| 0 <= o < self.connections[n - 1].len() implies #[trigger] self.port_delivered(
                    n - 1,
                    o,
                ) by {}
                self.lemma_propagate_ports_same(n - 1, self.connections[n - 1].len());
            }
        }
    }

    /// Replacing the boundary by one with as many pins leaves a well-formed
    /// network well-formed.
    pub proof fn lemma_boundary_wf(self, boundary: SlotModel)
        requires
            self.wf(),
            boundary.input.len() == self.slots[0].input.len(),
            boundary.output.len() == self.slots[0].output.len(),
        ensures
            self.with_slot(0, boundary).wf(),
    {
        let b = self.with_slot(0, boundary);
        assert forall|i: int| 1 <= i < b.slots.len() implies {
            &&& (#[trigger] b.slots[i]).comp.wf()
            &&& b.slots[i].input.len() == b.slots[i].comp.num_inputs()
            &&& b.slots[i].output.len() == b.slots[i].comp.num_outputs()
        } by {
            assert(b.slots[i] == self.slots[i]);
        }
        assert forall|i: int| 0 <= i < b.slots.len() implies (#[trigger] b.connections[i]).len()
            == b.slots[i].output.len() by {
            assert(self.connections[i].len() == self.slots[i].output.len());
        }
        assert forall|i: int, o: int, k: int|
            0 <= i < b.connections.len() && 0 <= o < b.connections[i].len() && 0 <= k
                < b.connections[i][o].len() implies b.valid_target(
            #[trigger] b.connections[i][o][k],
        ) by {
            assert(self.valid_target(self.connections[i][o][k]));
        }
    }

    /// Clearing the boundary's change flag leaves a settled network settled
    /// and a well-formed one well-formed.
    pub proof fn lemma_acknowledged(self)
        requires
            self.wf(),
            self.settled(),
        ensures
            self.acknowledged().wf(),
            self.acknowledged().settled(),
            self.acknowledged().input() == self.input(),
            self.acknowledged().output() == self.output(),
            self.acknowledged().dirty == self.dirty,
            self.acknowledged().acknowledged() == self.acknowledged(),
    {
        let a = self.acknowledged();
        self.lemma_boundary_wf(SlotModel { output_changed: false, ..self.slots[0] });
        assert forall|c: int, o: int|
            1 <= c < a.slots.len() && a.slots[c].output_changed && 0 <= o
                < a.connections[c].len() implies #[trigger] a.port_delivered(c, o) by {
            assert(self.port_delivered(c, o));
            assert forall|k: int| 0 <= k < a.connections[c][o].len() implies {
                let t = #[trigger] a.connections[c][o][k];
                a.slots[t.comp_id as int].input[t.input_id as int] == a.slots[c].output[o]
            } by {
                let t = self.connections[c][o][k];
                assert(self.valid_target(t));
            }
        }
        assert(a.acknowledged().slots =~= a.slots);
    }

    /// A tick of a settled network with the input that it holds does
    /// nothing: the output is the one that the network shows already, and
    /// the network stays as it is, dirty flags included, but for the
    /// boundary's change flag, which is cleared.
    pub proof fn lemma_settled_tick(self, post: NetModel, out: Seq<Bit>)
        requires
            self.wf(),
            self.settled(),
            self.steps_to(self.input(), post, out),
        ensures
            post == self.acknowledged(),
            out == self.output(),
    {
        let pre = self.commit_input(self.input());
        assert(pre == self.acknowledged());
        self.lemma_acknowledged();
        let mid = choose|mid: NetModel|
            {
                &&& self.evaluated(pre, mid)
                &&& post == #[trigger] mid.propagate_all()
                &&& out == post.output()
            };
        assert forall|i: int| 0 <= i < pre.slots.len() implies mid.slots[i] == pre.slots[i] by {
            if i >= 1 {
                assert(!self.dirty[i]);
                assert(!pre.dirty[i]);
            }
        }
        assert forall|i: int| 0 <= i < pre.dirty.len() implies mid.dirty[i] == pre.dirty[i] by {
            if i >= 1 {
                assert(!self.dirty[i]);
                assert(!pre.dirty[i]);
                assert(mid.slots[i] == pre.slots[i]);
            }
        }
        assert(mid.slots =~= pre.slots);
        assert(mid.dirty =~= pre.dirty);
        assert(mid == pre);
        pre.lemma_propagate_changed_same(pre.slots.len());
    }

    /// What the evaluation of a slot leaves behind depends on that slot
    /// alone: if two networks hold the same slot at the place `i`, in the
    /// same state before and after, then what is a possible evaluation of
    /// the one is a possible evaluation of the other at that place, whatever
    /// their other slots hold and whatever has become of them.
    pub proof fn lemma_slot_evaluation_is_local(
        self,
        pre: NetModel,
        mid: NetModel,
        other: NetModel,
        other_pre: NetModel,
        other_mid: NetModel,
        i: int,
    )
        requires
            self.evaluated(pre, mid),
            1 <= i < self.slots.len(),
            1 <= i < other.slots.len(),
            other.slots[i].comp == self.slots[i].comp,
            other_pre.slots[i] == pre.slots[i],
            other_pre.dirty[i] == pre.dirty[i],
            other_mid.slots[i] == mid.slots[i],
            other_mid.dirty[i] == mid.dirty[i],
        ensures
            if other_pre.dirty[i] {
                &&& other.slot_evaluated(i, other_pre.slots[i], other_mid.slots[i])
                &&& other_mid.dirty[i] == other_mid.slots[i].comp.needs_update()
            } else {
                &&& other_mid.slots[i] == other_pre.slots[i]
                &&& other_mid.dirty[i] == other_pre.dirty[i]
            },
    {
        let s = mid.slots[i];
        if pre.dirty[i] {
            assert(self.slot_evaluated(i, pre.slots[i], s));
        }
    }

    /// Two ticks in a row of a settled network, both with the input that it
    /// holds, give the same output, and the second leaves the network as the
    /// first left it, dirty flags included.
    pub proof fn lemma_unchanged_input_idempotent(
        self,
        first: NetModel,
        out1: Seq<Bit>,
        second: NetModel,
        out2: Seq<Bit>,
    )
        requires
            self.wf(),
            self.settled(),
            self.steps_to(self.input(), first, out1),
            first.steps_to(self.input(), second, out2),
        ensures
            out1 == out2,
            out1 == self.output(),
            second == first,
            first.dirty == self.dirty,
    {
        self.lemma_settled_tick(first, out1);
        self.lemma_acknowledged();
        first.lemma_settled_tick(second, out2);
    }
}

impl ComponentModel {
    /// A tick keeps a component in order and with its ports, and gives a
    /// value for each output.
    pub proof fn lemma_step_keeps_shape(self, input: Seq<Bit>, post: ComponentModel, out: Seq<Bit>)
        requires
            self.wf(),
            input.len() == self.num_inputs(),
            self.steps_to(input, post, out),
        ensures
            post.wf(),
            post.num_inputs() == self.num_inputs(),
            post.num_outputs() == self.num_outputs(),
            out.len() == self.num_outputs(),
        decreases self, 0nat,
    {
        match self {
            ComponentModel::Stdin(s) => {
                let r = choose|r: ReadOutcome|
                    post == ComponentModel::Stdin(#[trigger] s.step(input[0], r)) && out == s.step(
                        input[0],
                        r,
                    ).output();
                assert(s.step(input[0], r).last_out.len() == 8);
            },
            ComponentModel::Network(n) => {
                n.lemma_tick_keeps_shape(input, post->Network_0, out);
            },
            _ => {},
        }
    }
}

impl NetModel {
    /// The second phase of a tick keeps a network in order.
    pub proof fn lemma_evaluated_wf(self, pre: NetModel, mid: NetModel)
        requires
            pre.wf(),
            pre.slots.len() == self.slots.len(),
            forall|i: int|
                1 <= i < self.slots.len() ==> (#[trigger] pre.slots[i]).comp == self.slots[i].comp,
            self.evaluated(pre, mid),
        ensures
            mid.wf(),
            pre.same_shape(mid),
        decreases self, 1nat,
    {
        assert forall|i: int| 1 <= i < mid.slots.len() implies {
            &&& (#[trigger] mid.slots[i]).comp.wf()
            &&& mid.slots[i].input.len() == mid.slots[i].comp.num_inputs()
            &&& mid.slots[i].output.len() == mid.slots[i].comp.num_outputs()
            &&& mid.slots[i].output.len() == pre.slots[i].output.len()
            &&& mid.slots[i].input == pre.slots[i].input
        } by {
            assert(pre.slots[i].comp.wf());
            if pre.dirty[i] {
                assert(self.slot_evaluated(i, pre.slots[i], mid.slots[i]));
                self.slots[i].comp.lemma_step_keeps_shape(
                    pre.slots[i].input,
                    mid.slots[i].comp,
                    mid.slots[i].output,
                );
            }
        }
        assert forall|i: int| 0 <= i < mid.slots.len() implies (#[trigger] mid.connections[i]).len()
            == mid.slots[i].output.len() by {
            assert(pre.connections[i].len() == pre.slots[i].output.len());
            if i >= 1 {
                assert(mid.slots[i].output.len() == pre.slots[i].output.len());
            }
        }
        assert forall|i: int, o: int, k: int|
            0 <= i < mid.connections.len() && 0 <= o < mid.connections[i].len() && 0 <= k
                < mid.connections[i][o].len() implies mid.valid_target(
            #[trigger] mid.connections[i][o][k],
        ) by {
            let t = pre.connections[i][o][k];
            assert(pre.valid_target(t));
            if t.comp_id >= 1 {
                assert(mid.slots[t.comp_id as int].input == pre.slots[t.comp_id as int].input);
            }
        }
        assert forall|c: int| 0 <= c < pre.slots.len() implies (#[trigger] mid.slots[c]).input.len()
            == pre.slots[c].input.len() by {
            if c >= 1 {
                assert(mid.slots[c].input == pre.slots[c].input);
            }
        }
    }

    /// The first phase of a tick keeps a network in order and leaves the
    /// components where they are.
    pub proof fn lemma_commit_wf(self, input: Seq<Bit>)
        requires
            self.wf(),
            input.len() == self.num_inputs(),
        ensures
            self.commit_input(input).wf(),
            self.same_shape(self.commit_input(input)),
            forall|i: int|
                1 <= i < self.slots.len() ==> {
                    &&& (#[trigger] self.commit_input(input).slots[i]).comp == self.slots[i].comp
                    &&& self.commit_input(input).slots[i].output == self.slots[i].output
                    &&& self.commit_input(input).slots[i].output_changed
                        == self.slots[i].output_changed
                },
    {
        if self.slots[0].output == input {
            self.lemma_boundary_wf(SlotModel { output_changed: false, ..self.slots[0] });
        } else {
            let staged = self.with_slot(0, SlotModel { output: input, ..self.slots[0] });
            self.lemma_boundary_wf(SlotModel { output: input, ..self.slots[0] });
            staged.lemma_propagate_ports_frame(0, staged.connections[0].len());
            staged.lemma_frame_wf(self.commit_input(input));
        }
    }

    /// A tick keeps a network in order and with its signature, and gives a
    /// value for each output.
    pub proof fn lemma_tick_keeps_shape(self, input: Seq<Bit>, post: NetModel, out: Seq<Bit>)
        requires
            self.wf(),
            input.len() == self.num_inputs(),
            self.steps_to(input, post, out),
        ensures
            post.wf(),
            post.info == self.info,
            self.same_shape(post),
            out.len() == self.num_outputs(),
        decreases self, 2nat,
    {
        let mid = choose|mid: NetModel|
            {
                &&& self.evaluated(self.commit_input(input), mid)
                &&& post == #[trigger] mid.propagate_all()
                &&& out == post.output()
            };
        let p1 = self.commit_input(input);
        self.lemma_commit_wf(input);
        self.lemma_evaluated_wf(p1, mid);
        mid.lemma_propagate_changed_frame(mid.slots.len());
        assert(self.same_shape(post)) by {
            assert forall|c: int| 0 <= c < self.slots.len() implies (#[trigger] post.slots[c]).input.len()
                == self.slots[c].input.len() by {
                assert(mid.slots[c].input.len() == p1.slots[c].input.len());
                assert(p1.slots[c].input.len() == self.slots[c].input.len());
            }
        }
    }
}

impl ComponentModel {
    /// Whether the component is an input bridge or holds one, at any depth.
    pub open spec fn reads(self) -> bool
        decreases self, 0nat,
    {
        match self {
            ComponentModel::Stdin(_) => true,
            ComponentModel::Network(n) => n.reads(),
            _ => false,
        }
    }

    /// A tick of a component without an input bridge has one outcome: the
    /// state after it and the output are determined by the state before it
    /// and the input.
    pub proof fn lemma_step_is_determined(
        self,
        input: Seq<Bit>,
        post1: ComponentModel,
        out1: Seq<Bit>,
        post2: ComponentModel,
        out2: Seq<Bit>,
    )
        requires
            self.wf(),
            input.len() == self.num_inputs(),
            !self.reads(),
            self.steps_to(input, post1, out1),
            self.steps_to(input, post2, out2),
        ensures
            post1 == post2,
            out1 == out2,
        decreases self, 0nat,
    {
        match self {
            ComponentModel::Network(n) => {
                n.lemma_tick_is_determined(
                    input,
                    post1->Network_0,
                    out1,
                    post2->Network_0,
                    out2,
                );
            },
            _ => {},
        }
    }
}

impl NetModel {
    /// Whether a slot of the network is an input bridge or holds one, at
    /// any depth.
    pub open spec fn reads(self) -> bool
        decreases self, 1nat,
    {
        exists|i: int| 1 <= i < self.slots.len() && (#[trigger] self.slots[i]).comp.reads()
    }

    /// The second phase of a tick of a network without an input bridge has
    /// one outcome.
    pub proof fn lemma_evaluated_is_determined(self, pre: NetModel, mid1: NetModel, mid2: NetModel)
        requires
            !self.reads(),
            pre.wf(),
            pre.slots.len() == self.slots.len(),
            forall|i: int|
                1 <= i < self.slots.len() ==> (#[trigger] pre.slots[i]).comp == self.slots[i].comp,
            self.evaluated(pre, mid1),
            self.evaluated(pre, mid2),
        ensures
            mid1 == mid2,
        decreases self, 1nat,
    {
        assert forall|i: int| 0 <= i < pre.slots.len() implies mid1.slots[i] == mid2.slots[i]
            && mid1.dirty[i] == mid2.dirty[i] by {
            if i >= 1 {
                assert(!self.slots[i].comp.reads());
                assert(pre.slots[i].comp.wf());
                if pre.dirty[i] {
                    assert(self.slot_evaluated(i, pre.slots[i], mid1.slots[i]));
                    assert(self.slot_evaluated(i, pre.slots[i], mid2.slots[i]));
                    self.slots[i].comp.lemma_step_is_determined(
                        pre.slots[i].input,
                        mid1.slots[i].comp,
                        mid1.slots[i].output,
                        mid2.slots[i].comp,
                        mid2.slots[i].output,
                    );
                }
            }
        }
        assert(mid1.slots =~= mid2.slots);
        assert(mid1.dirty =~= mid2.dirty);
    }

    /// A tick of a network without an input bridge has one outcome.
    pub proof fn lemma_tick_is_determined(
        self,
        input: Seq<Bit>,
        post1: NetModel,
        out1: Seq<Bit>,
        post2: NetModel,
        out2: Seq<Bit>,
    )
        requires
            self.wf(),
            input.len() == self.num_inputs(),
            !self.reads(),
            self.steps_to(input, post1, out1),
            self.steps_to(input, post2, out2),
        ensures
            post1 == post2,
            out1 == out2,
        decreases self, 2nat,
    {
        let pre = self.commit_input(input);
        let mid1 = choose|mid: NetModel|
            {
                &&& self.evaluated(pre, mid)
                &&& post1 == #[trigger] mid.propagate_all()
                &&& out1 == post1.output()
            };
        let mid2 = choose|mid: NetModel|
            {
                &&& self.evaluated(pre, mid)
                &&& post2 == #[trigger] mid.propagate_all()
                &&& out2 == post2.output()
            };
        self.lemma_commit_wf(input);
        self.lemma_evaluated_is_determined(pre, mid1, mid2);
    }
}

impl NetModel {
    /// In a tick of a network each slot goes its own way: its component
    /// makes a tick of its own on the values that stand at the slot's pins
    /// once the input is committed, or, if the slot is not due, stays as it
    /// is with its output. What the other slots hold, instances of the same
    /// definition among them, does not enter.
    pub proof fn lemma_slot_ticks_alone(
        self,
        input: Seq<Bit>,
        post: NetModel,
        out: Seq<Bit>,
        j: int,
    )
        requires
            self.wf(),
            input.len() == self.num_inputs(),
            self.steps_to(input, post, out),
            1 <= j < self.slots.len(),
        ensures
            ({
                let due = self.commit_input(input);
                if due.dirty[j] {
                    self.slots[j].comp.steps_to(
                        due.slots[j].input,
                        post.slots[j].comp,
                        post.slots[j].output,
                    )
                } else {
                    post.slots[j].comp == self.slots[j].comp && post.slots[j].output
                        == self.slots[j].output
                }
            }),
    {
        let mid = choose|mid: NetModel|
            {
                &&& self.evaluated(self.commit_input(input), mid)
                &&& post == #[trigger] mid.propagate_all()
                &&& out == post.output()
            };
        let due = self.commit_input(input);
        self.lemma_commit_wf(input);
        self.lemma_evaluated_wf(due, mid);
        mid.lemma_propagate_changed_frame(mid.slots.len());
        let s = mid.slots[j];
        assert(post.slots[j].comp == s.comp && post.slots[j].output == s.output);
        if due.dirty[j] {
            assert(self.slot_evaluated(j, due.slots[j], s));
        } else {
            assert(s == due.slots[j]);
        }
    }
}

/// What a read gives of a source of the bytes `bytes` of which `done` were
/// read: the next byte, or the end.
pub open spec fn spec_read(bytes: Seq<u8>, done: nat) -> ReadOutcome {
    if done < bytes.len() {
        ReadOutcome::Byte(bytes[done as int])
    } else {
        ReadOutcome::End
    }
}

/// A clock that starts low and toggles at every tick: its value at the tick
/// number `t`, counted from 1.
pub open spec fn spec_clock(t: nat) -> Bit {
    if t % 2 == 1 {
        Bit::L
    } else {
        Bit::H
    }
}

impl StdinModel {
    /// The bridge after `t` ticks on a clock that starts low and toggles at
    /// every tick, with a source that holds the bytes `bytes` and is read
    /// by this bridge alone.
    pub open spec fn clocked(self, bytes: Seq<u8>, t: nat) -> StdinModel
        decreases t,
    {
        if t == 0 {
            self
        } else {
            self.clocked(bytes, (t - 1) as nat).step(
                spec_clock(t),
                spec_read(bytes, ((t - 1) / 2) as nat),
            )
        }
    }

    /// What the bridge puts out at the tick number `2 * k`, the `k`th
    /// rising edge: the `k`th byte of the source with the end-of-stream flag
    /// low, or no data with the flag high once the source is exhausted.
    pub open spec fn sampled(bytes: Seq<u8>, k: nat) -> Seq<Bit> {
        if k <= bytes.len() {
            seq![Bit::L] + spec_bits_of_u8(bytes[k - 1])
        } else {
            seq![Bit::H] + spec_unknown(8)
        }
    }

    /// Sampling on a toggling clock: the first tick, with the clock low,
    /// leaves the outputs as they were; from then on each rising edge, at the
    /// ticks 2, 4, 6, ..., yields the next byte of the source, and the tick
    /// after it holds that byte.
    pub proof fn lemma_clocked_sampling(self, bytes: Seq<u8>, k: nat)
        requires
            k >= 1,
        ensures
            self.clocked(bytes, 1).output() == self.output(),
            self.clocked(bytes, 2 * k).output() == Self::sampled(bytes, k),
            self.clocked(bytes, 2 * k + 1).output() == Self::sampled(bytes, k),
            self.clocked(bytes, 2 * k).last_clk == Bit::H,
            self.clocked(bytes, (2 * k - 1) as nat).last_clk == Bit::L,
        decreases k,
    {
        let odd = self.clocked(bytes, (2 * k - 1) as nat);
        let before = self.clocked(bytes, (2 * k - 2) as nat);
        assert(odd == before.step(spec_clock((2 * k - 1) as nat), spec_read(bytes, (k - 1) as nat))) by {
            assert((2 * k - 2) / 2 == k - 1);
        }
        assert(spec_clock((2 * k - 1) as nat) == Bit::L);
        assert(odd.last_clk == Bit::L);
        let even = self.clocked(bytes, 2 * k);
        assert(even == odd.step(spec_clock(2 * k), spec_read(bytes, (k - 1) as nat))) by {
            assert((2 * k - 1) / 2 == k - 1);
        }
        assert(spec_clock(2 * k) == Bit::H);
        assert(odd.rising(Bit::H));
        let next = self.clocked(bytes, 2 * k + 1);
        assert(next == even.step(spec_clock(2 * k + 1), spec_read(bytes, k))) by {
            assert((2 * k + 1 - 1) / 2 == k);
        }
        assert(spec_clock(2 * k + 1) == Bit::L);
        if k > 1 {
            self.lemma_clocked_sampling(bytes, (k - 1) as nat);
        } else {
            assert(self.clocked(bytes, 0) == self);
        }
    }

    /// Draining a source: a bridge that has not shown the end of the stream
    /// shows it first at the tick number `2 * n + 2`, where `n` is the number
    /// of bytes of the source, and shows it from then on. One period of the
    /// clock goes by for each byte, and one more for the end.
    pub proof fn lemma_clocked_drain(self, bytes: Seq<u8>, t: nat)
        requires
            self.eof != Bit::H,
        ensures
            t < 2 * bytes.len() + 2 ==> self.clocked(bytes, t).eof != Bit::H,
            t >= 2 * bytes.len() + 2 ==> self.clocked(bytes, t).eof == Bit::H,
        decreases t,
    {
        if t > 0 {
            self.lemma_clocked_drain(bytes, (t - 1) as nat);
            let before = self.clocked(bytes, (t - 1) as nat);
            if t % 2 == 0 {
                let k = t / 2;
                self.lemma_clocked_sampling(bytes, k);
                assert(before.last_clk == Bit::L);
                assert((t - 1) / 2 == k - 1);
            }
        }
    }
}

} // verus!
