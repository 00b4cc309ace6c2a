//! The components that a simulation is made of: the four primitives, and
//! networks of components.

use crate::bit::Bit;
use crate::info::CompInfo;
use crate::model::{
    spec_constant_output, spec_nand, spec_straight_fanout, spec_unknown, ComponentModel, InfoModel,
    NetModel, SlotModel, StdinModel, StdoutModel,
};
use crate::names::{copy_names, names_view, numbered_names, spec_numbered_names};
use crate::stream::{
    read_shared_byte, read_stdin_byte, send_shared_byte, send_stdout_byte, RcBufRead, RcWrite,
    ReadOutcome,
};
use std::rc::Rc;
use vstd::prelude::*;
use vstd::string::*;

pub use crate::model::Index;

verus! {

/// Whether a pin takes a value in or gives one out.
#[derive(Debug, Copy, Clone, Hash, PartialEq, Eq, Structural)]
pub enum Direction {
    Input,
    Output,
}

/// A pin of an instance in a component's body. Instance 0 is the body's own
/// boundary, whose directions are those seen from inside: a declared input
/// of the component is an output there.
#[derive(Debug, Copy, Clone, Hash, PartialEq, Eq, Structural)]
pub struct ComponentIndex {
    pub c_id: usize,
    pub port_id: usize,
    pub direction: Direction,
}

impl ComponentIndex {
    pub fn input(c_id: usize, port_id: usize) -> (r: Self)
        ensures
            r == (ComponentIndex { c_id, port_id, direction: Direction::Input }),
    {
        Self { c_id, port_id, direction: Direction::Input }
    }

    pub fn output(c_id: usize, port_id: usize) -> (r: Self)
        ensures
            r == (ComponentIndex { c_id, port_id, direction: Direction::Output }),
    {
        Self { c_id, port_id, direction: Direction::Output }
    }

    pub fn is_output(&self) -> (r: bool)
        ensures
            r == (self.direction == Direction::Output),
    {
        self.direction == Direction::Output
    }
}

impl Index {
    pub fn new(comp_id: usize, input_id: usize) -> (r: Index)
        ensures
            r == (Index { comp_id, input_id }),
    {
        Index { comp_id, input_id }
    }
}

/// The place of a signal in a trace: an instance, counted in the order in
/// which a network's tree is walked, and one of its ports, inputs first.
#[derive(Debug, Copy, Clone, Hash, PartialEq, Eq, Structural)]
pub struct InstanceIndex {
    instance: usize,
    port: usize,
}

impl InstanceIndex {
    pub closed spec fn spec_instance(self) -> usize {
        self.instance
    }

    pub closed spec fn spec_port(self) -> usize {
        self.port
    }

    /// The place of the port `port` of the instance `instance`.
    pub closed spec fn spec_at(instance: usize, port: usize) -> InstanceIndex {
        InstanceIndex { instance, port }
    }

    /// A place is made of its instance and its port, and of nothing else:
    /// two places of the same instance and port are the same place.
    pub proof fn lemma_place(self)
        ensures
            self == Self::spec_at(self.spec_instance(), self.spec_port()),
    {
    }

    pub fn new(instance: usize, port: usize) -> (r: Self)
        ensures
            r == Self::spec_at(instance, port),
            r.spec_instance() == instance,
            r.spec_port() == port,
    {
        Self { instance, port }
    }

    pub fn instance(&self) -> (r: usize)
        ensures
            r == self.spec_instance(),
    {
        self.instance
    }

    pub fn port(&self) -> (r: usize)
        ensures
            r == self.spec_port(),
    {
        self.port
    }
}

/// The names of a component's ports.
#[derive(Debug, Clone)]
pub struct PortNames {
    pub input: Vec<String>,
    pub output: Vec<String>,
}

/// `names` as owned strings.
fn owned_names(names: &[&str]) -> (v: Vec<String>)
    ensures
        v@.len() == names@.len(),
        forall|i: int| 0 <= i < names@.len() ==> (#[trigger] v@[i])@ == names@[i]@,
{
    let mut v: Vec<String> = Vec::new();
    let mut i: usize = 0;
    while i < names.len()
        invariant
            i <= names.len(),
            v@.len() == i,
            forall|j: int| 0 <= j < i ==> (#[trigger] v@[j])@ == names@[j]@,
        decreases names.len() - i,
    {
        v.push(String::from_str(names[i]));
        i += 1;
    }
    v
}

impl PortNames {
    /// The input names as sequences of characters.
    pub open spec fn spec_input(self) -> Seq<Seq<char>> {
        names_view(self.input@)
    }

    /// The output names as sequences of characters.
    pub open spec fn spec_output(self) -> Seq<Seq<char>> {
        names_view(self.output@)
    }

    pub fn new(input: &[&str], output: &[&str]) -> (r: PortNames)
        ensures
            r.spec_input().len() == input@.len(),
            r.spec_output().len() == output@.len(),
            forall|i: int| 0 <= i < input@.len() ==> r.spec_input()[i] == input@[i]@,
            forall|i: int| 0 <= i < output@.len() ==> r.spec_output()[i] == output@[i]@,
    {
        PortNames { input: owned_names(input), output: owned_names(output) }
    }

    pub fn new_vec(input: Vec<String>, output: Vec<String>) -> (r: PortNames)
        ensures
            r.input == input,
            r.output == output,
    {
        PortNames { input, output }
    }

    /// The names `i0`, `i1`, ... for the inputs and `o0`, `o1`, ... for the
    /// outputs.
    pub fn default(num_inputs: usize, num_outputs: usize) -> (r: PortNames)
        ensures
            r.spec_input() == spec_numbered_names("i"@, num_inputs as nat),
            r.spec_output() == spec_numbered_names("o"@, num_outputs as nat),
    {
        PortNames { input: numbered_names("i", num_inputs), output: numbered_names("o", num_outputs) }
    }
}

/// A NAND gate of any number of inputs.
#[derive(Debug, Copy, Clone)]
pub struct Nand {
    num_inputs: usize,
}

impl View for Nand {
    type V = ComponentModel;

    closed spec fn view(&self) -> ComponentModel {
        ComponentModel::Nand { num_inputs: self.num_inputs as nat }
    }
}

/// Whether `bits` holds `b`.
fn holds_bit(bits: &[Bit], b: Bit) -> (r: bool)
    ensures
        r == bits@.contains(b),
{
    let mut i: usize = 0;
    while i < bits.len()
        invariant
            i <= bits.len(),
            forall|j: int| 0 <= j < i ==> bits@[j] != b,
        decreases bits.len() - i,
    {
        if bits[i] == b {
            return true;
        }
        i += 1;
    }
    false
}

impl Nand {
    pub fn new(num_inputs: usize) -> (r: Nand)
        ensures
            r@ == (ComponentModel::Nand { num_inputs: num_inputs as nat }),
    {
        Nand { num_inputs }
    }

    /// High if any input is low; else unknown if any input is unknown; else
    /// low.
    pub fn update(&mut self, input: &[Bit]) -> (out: Vec<Bit>)
        requires
            input@.len() == old(self)@.num_inputs(),
        ensures
            *final(self) == *old(self),
            out@ == seq![spec_nand(input@)],
    {
        let bit = if holds_bit(input, Bit::L) {
            Bit::H
        } else if holds_bit(input, Bit::X) {
            Bit::X
        } else {
            Bit::L
        };
        let out = vec![bit];
        assert(out@ =~= seq![spec_nand(input@)]);
        out
    }

    pub fn num_inputs(&self) -> (n: usize)
        ensures
            n == self@.num_inputs(),
    {
        self.num_inputs
    }
}

/// The constant source: a low, a high and an unknown bit.
#[derive(Debug, Copy, Clone)]
pub struct ConstantBit {}

impl ConstantBit {
    pub fn new() -> (r: Self)
        ensures
            r == (ConstantBit {  }),
    {
        Self {  }
    }

    pub fn update(&mut self, input: &[Bit]) -> (out: Vec<Bit>)
        requires
            input@.len() == 0,
        ensures
            *final(self) == *old(self),
            out@ == spec_constant_output(),
    {
        let out = vec![Bit::L, Bit::H, Bit::X];
        assert(out@ =~= spec_constant_output());
        out
    }
}

/// Eight unknown bits.
fn unknown_byte() -> (v: Vec<Bit>)
    ensures
        v@ == spec_unknown(8),
{
    let v = vec![Bit::X, Bit::X, Bit::X, Bit::X, Bit::X, Bit::X, Bit::X, Bit::X];
    assert(v@ =~= spec_unknown(8));
    v
}

/// The input bridge: on a rising edge of its clock input it reads one byte
/// from its source, and between edges it holds what it read last.
pub struct Stdin {
    last_clk: Bit,
    last_out: Vec<Bit>,
    eof: Bit,
    buf: Option<RcBufRead>,
}

impl View for Stdin {
    type V = StdinModel;

    closed spec fn view(&self) -> StdinModel {
        StdinModel {
            last_clk: self.last_clk,
            last_out: self.last_out@,
            eof: self.eof,
            source: self.buf,
        }
    }
}

impl Stdin {
    /// A bridge that reads the process's standard input.
    pub fn new() -> (r: Self)
        ensures
            r@ == (StdinModel {
                last_clk: Bit::X,
                last_out: spec_unknown(8),
                eof: Bit::X,
                source: None,
            }),
    {
        Self { last_clk: Bit::X, last_out: unknown_byte(), eof: Bit::X, buf: None }
    }

    /// A bridge that reads `r`.
    pub fn with_bufread(r: RcBufRead) -> (s: Self)
        ensures
            s@ == (StdinModel {
                last_clk: Bit::X,
                last_out: spec_unknown(8),
                eof: Bit::X,
                source: Some(r),
            }),
    {
        let mut s = Self::new();
        s.buf = Some(r);
        s
    }

    /// Whether a tick with the clock at `clk` reads a byte.
    pub fn rising(&self, clk: Bit) -> (r: bool)
        ensures
            r == self@.rising(clk),
    {
        self.last_clk == Bit::L && clk == Bit::H
    }

    /// Makes a tick with the clock at `clk`, taking `read` for what the
    /// source gave if the tick reads.
    pub fn advance(&mut self, clk: Bit, read: ReadOutcome) -> (out: Vec<Bit>)
        requires
            old(self)@.wf(),
        ensures
            final(self)@ == old(self)@.step(clk, read),
            final(self)@.wf(),
            out@ == final(self)@.output(),
    {
        if self.last_clk == Bit::L && clk == Bit::H {
            match read {
                ReadOutcome::Byte(b) => {
                    self.eof = Bit::L;
                    self.last_out = Bit::from_u8(b);
                },
                ReadOutcome::End => {
                    self.eof = Bit::H;
                    self.last_out = unknown_byte();
                },
                ReadOutcome::Busy => {
                    self.eof = Bit::L;
                    self.last_out = unknown_byte();
                },
            }
        }
        self.last_clk = clk;
        let mut out: Vec<Bit> = Vec::new();
        out.push(self.eof);
        let mut i: usize = 0;
        while i < 8
            invariant
                i <= 8,
                self.last_out@.len() == 8,
                out@ == seq![self.eof] + self.last_out@.take(i as int),
            decreases 8 - i,
        {
            out.push(self.last_out[i]);
            i += 1;
            assert(out@ =~= seq![self.eof] + self.last_out@.take(i as int));
        }
        assert(self.last_out@.take(8) =~= self.last_out@);
        out
    }

    /// Makes a tick: on a rising edge of the clock, `input[0]`, reads one
    /// byte from the source and puts it out, or the end-of-stream flag when
    /// there is none; otherwise holds its outputs.
    pub fn update(&mut self, input: &[Bit]) -> (out: Vec<Bit>)
        requires
            old(self)@.wf(),
            input@.len() == 1,
        ensures
            final(self)@.wf(),
            exists|r: ReadOutcome| final(self)@ == #[trigger] old(self)@.step(input@[0], r),
            out@ == final(self)@.output(),
    {
        let clk = input[0];
        let read = if self.rising(clk) {
            match &self.buf {
                Some(source) => read_shared_byte(source),
                None => read_stdin_byte(),
            }
        } else {
            ReadOutcome::Busy
        };
        self.advance(clk, read)
    }
}

/// The output bridge: on a rising edge of its clock input it writes the byte
/// on its eight data inputs to its sink.
pub struct Stdout {
    last_clk: Bit,
    buf: Option<RcWrite>,
}

impl View for Stdout {
    type V = StdoutModel;

    closed spec fn view(&self) -> StdoutModel {
        StdoutModel { last_clk: self.last_clk, sink: self.buf }
    }
}

impl Stdout {
    /// A bridge that writes to the process's standard output.
    pub fn new() -> (r: Self)
        ensures
            r@ == (StdoutModel { last_clk: Bit::X, sink: None }),
    {
        Self { last_clk: Bit::X, buf: None }
    }

    /// A bridge that writes to `r`.
    pub fn with_bufwrite(r: RcWrite) -> (s: Self)
        ensures
            s@ == (StdoutModel { last_clk: Bit::X, sink: Some(r) }),
    {
        Self { last_clk: Bit::X, buf: Some(r) }
    }

    /// The byte that a tick with `input` writes, if it writes one.
    pub fn pending(&self, input: &[Bit]) -> (r: Option<u8>)
        requires
            input@.len() == 9,
        ensures
            r == self@.written(input@),
    {
        if self.last_clk == Bit::L && input[0] == Bit::H {
            let data = vstd::slice::slice_subrange(input, 1, 9);
            assert(data@ =~= input@.skip(1));
            Some(Bit::bit8_into_u8(data))
        } else {
            None
        }
    }

    /// Makes a tick: on a rising edge of the clock, `input[0]`, writes the
    /// byte on the data lines to the sink.
    pub fn update(&mut self, input: &[Bit]) -> (out: Vec<Bit>)
        requires
            input@.len() == 9,
        ensures
            final(self)@ == old(self)@.step(input@[0]),
            out@ == Seq::<Bit>::empty(),
    {
        match self.pending(input) {
            Some(byte) => {
                match &self.buf {
                    Some(sink) => send_shared_byte(sink, byte),
                    None => send_stdout_byte(byte),
                }
            },
            None => {},
        }
        self.last_clk = input[0];
        Vec::new()
    }
}

/// A component: one of the four primitives, or a network of components.
pub enum Component {
    Nand(Nand),
    ConstantBit(ConstantBit),
    Stdin(Stdin),
    Stdout(Stdout),
    Network(Network),
}

/// One slot of a network: a component with the values last delivered to its
/// inputs and last computed at its outputs, and for each output the input
/// pins it feeds.
pub struct CompIo {
    pub comp: Component,
    input: Vec<Bit>,
    output: Vec<Bit>,
    pub connections: Vec<Vec<Index>>,
    output_changed: bool,
}

/// A network of components. Slot 0 stands for the network's own ports, seen
/// from inside.
pub struct Network {
    pub components: Vec<CompIo>,
    pub info: Rc<CompInfo>,
    pub connections: Vec<Vec<Vec<Index>>>,
    pub component_dirty: Vec<bool>,
}

/// The fan-out lists of one slot as sequences.
pub open spec fn fanout_view(v: Seq<Vec<Index>>) -> Seq<Seq<Index>> {
    Seq::new(v.len(), |o: int| v[o]@)
}

/// The fan-out lists of all slots as sequences.
pub open spec fn wiring_view(v: Seq<Vec<Vec<Index>>>) -> Seq<Seq<Seq<Index>>> {
    Seq::new(v.len(), |i: int| fanout_view(v[i]@))
}

impl View for Component {
    type V = ComponentModel;

    open spec fn view(&self) -> ComponentModel
        decreases self,
    {
        match self {
            Component::Nand(n) => n@,
            Component::ConstantBit(_) => ComponentModel::ConstantBit,
            Component::Stdin(s) => ComponentModel::Stdin(s@),
            Component::Stdout(s) => ComponentModel::Stdout(s@),
            Component::Network(n) => ComponentModel::Network(n@),
        }
    }
}

impl View for CompIo {
    type V = SlotModel;

    closed spec fn view(&self) -> SlotModel
        decreases self,
    {
        SlotModel {
            comp: self.comp@,
            input: self.input@,
            output: self.output@,
            connections: fanout_view(self.connections@),
            output_changed: self.output_changed,
        }
    }
}

impl View for Network {
    type V = NetModel;

    open spec fn view(&self) -> NetModel
        decreases self,
    {
        NetModel {
            info: self.info@,
            slots: Seq::new(
                self.components.len() as nat,
                |i: int|
                    if 0 <= i < self.components.len() {
                        self.components[i]@
                    } else {
                        arbitrary()
                    },
            ),
            connections: wiring_view(self.connections@),
            dirty: self.component_dirty@,
        }
    }
}

/// `n` unknown bits.
fn unknown_bits(n: usize) -> (v: Vec<Bit>)
    ensures
        v@ == spec_unknown(n as nat),
{
    let v = vec![Bit::X; n];
    assert(v@ =~= spec_unknown(n as nat));
    v
}

/// `n` empty fan-out lists.
pub open spec fn spec_no_fanout(n: nat) -> Seq<Seq<Index>> {
    Seq::new(n, |o: int| Seq::<Index>::empty())
}

fn no_fanout(n: usize) -> (v: Vec<Vec<Index>>)
    ensures
        fanout_view(v@) == spec_no_fanout(n as nat),
{
    let mut v: Vec<Vec<Index>> = Vec::new();
    let mut i: usize = 0;
    while i < n
        invariant
            i <= n,
            v@.len() == i,
            forall|j: int| 0 <= j < i ==> (#[trigger] v@[j])@ == Seq::<Index>::empty(),
        decreases n - i,
    {
        v.push(Vec::new());
        i += 1;
    }
    assert(fanout_view(v@) =~= spec_no_fanout(n as nat));
    v
}

/// A copy of one fan-out list.
fn copy_targets(targets: &Vec<Index>) -> (v: Vec<Index>)
    ensures
        v@ == targets@,
{
    let mut v: Vec<Index> = Vec::new();
    let mut i: usize = 0;
    while i < targets.len()
        invariant
            i <= targets.len(),
            v@ == targets@.take(i as int),
        decreases targets.len() - i,
    {
        v.push(targets[i]);
        i += 1;
        assert(v@ =~= targets@.take(i as int));
    }
    assert(targets@.take(targets@.len() as int) =~= targets@);
    v
}

/// A copy of the fan-out lists of one slot.
fn copy_fanout(fanout: &Vec<Vec<Index>>) -> (v: Vec<Vec<Index>>)
    ensures
        fanout_view(v@) == fanout_view(fanout@),
{
    let mut v: Vec<Vec<Index>> = Vec::new();
    let mut i: usize = 0;
    while i < fanout.len()
        invariant
            i <= fanout.len(),
            v@.len() == i,
            forall|j: int| 0 <= j < i ==> (#[trigger] v@[j])@ == fanout@[j]@,
        decreases fanout.len() - i,
    {
        v.push(copy_targets(&fanout[i]));
        i += 1;
    }
    assert(fanout_view(v@) =~= fanout_view(fanout@));
    v
}

/// A copy of `bits`.
fn copy_bits(bits: &Vec<Bit>) -> (v: Vec<Bit>)
    ensures
        v@ == bits@,
{
    let mut v: Vec<Bit> = Vec::new();
    let mut i: usize = 0;
    while i < bits.len()
        invariant
            i <= bits.len(),
            v@ == bits@.take(i as int),
        decreases bits.len() - i,
    {
        v.push(bits[i]);
        i += 1;
        assert(v@ =~= bits@.take(i as int));
    }
    assert(bits@.take(bits@.len() as int) =~= bits@);
    v
}

/// Whether the two hold the same bits.
fn same_bits(a: &[Bit], b: &[Bit]) -> (r: bool)
    ensures
        r == (a@ == b@),
{
    if a.len() != b.len() {
        return false;
    }
    let mut i: usize = 0;
    while i < a.len()
        invariant
            i <= a.len(),
            a@.len() == b@.len(),
            forall|j: int| 0 <= j < i ==> a@[j] == b@[j],
        decreases a.len() - i,
    {
        if a[i] != b[i] {
            return false;
        }
        i += 1;
    }
    assert(a@ =~= b@);
    true
}

impl CompIo {
    /// The component in the slot.
    pub closed spec fn spec_comp(self) -> Component {
        self.comp
    }

    /// A slot for `comp` with all pins unknown, nothing connected, and the
    /// output marked as changed.
    pub fn new(comp: Component) -> (r: CompIo)
        ensures
            r.spec_comp() == comp,
            r@ == (SlotModel {
                comp: comp@,
                input: spec_unknown(comp@.num_inputs()),
                output: spec_unknown(comp@.num_outputs()),
                connections: spec_no_fanout(comp@.num_outputs()),
                output_changed: true,
            }),
    {
        let input = unknown_bits(comp.num_inputs());
        let output = unknown_bits(comp.num_outputs());
        let connections = no_fanout(comp.num_outputs());
        CompIo { comp, input, output, connections, output_changed: true }
    }

    /// The boundary slot of a network with `num_inputs` inputs and
    /// `num_outputs` outputs: it has the network's inputs as outputs and the
    /// network's outputs as inputs.
    pub fn c_zero(num_inputs: usize, num_outputs: usize) -> (r: CompIo)
        ensures
            r@ == (SlotModel {
                comp: ComponentModel::Nand { num_inputs: 0 },
                input: spec_unknown(num_outputs as nat),
                output: spec_unknown(num_inputs as nat),
                connections: spec_no_fanout(num_inputs as nat),
                output_changed: true,
            }),
    {
        let comp = Component::Nand(Nand::new(0));
        let input = unknown_bits(num_outputs);
        let output = unknown_bits(num_inputs);
        let connections = no_fanout(num_inputs);
        CompIo { comp, input, output, connections, output_changed: true }
    }

    /// Adds the input pin `to` to the fan-out of the output `output_id`.
    pub fn add_connection(&mut self, output_id: usize, to: Index)
        requires
            output_id < old(self)@.connections.len(),
        ensures
            final(self)@ == (SlotModel {
                connections: old(self)@.connections.update(
                    output_id as int,
                    old(self)@.connections[output_id as int].push(to),
                ),
                ..old(self)@
            }),
            final(self).spec_comp() == old(self).spec_comp(),
    {
        self.connections[output_id].push(to);
        assert(fanout_view(self.connections@) =~= fanout_view(old(self).connections@).update(
            output_id as int,
            fanout_view(old(self).connections@)[output_id as int].push(to),
        ));
    }

    /// The values at the input pins.
    pub fn input(&self) -> (r: &Vec<Bit>)
        ensures
            r@ == self@.input,
    {
        &self.input
    }

    /// The values at the output pins.
    pub fn output(&self) -> (r: &Vec<Bit>)
        ensures
            r@ == self@.output,
    {
        &self.output
    }

    /// For each output pin the input pins that it feeds.
    pub fn fanout(&self) -> (r: &Vec<Vec<Index>>)
        ensures
            fanout_view(r@) == self@.connections,
    {
        &self.connections
    }

    /// The component in the slot.
    pub fn component(&self) -> (r: &Component)
        ensures
            r@ == self@.comp,
            *r == self.spec_comp(),
    {
        &self.comp
    }

    /// The component in a slot is a part of the slot.
    pub proof fn lemma_component_is_part(self)
        ensures
            decreases_to!(self => self.spec_comp()),
    {
    }

    /// Whether the last evaluation changed the output.
    pub fn output_changed(&self) -> (r: bool)
        ensures
            r == self@.output_changed,
    {
        self.output_changed
    }

    fn set_input(&mut self, pin: usize, v: Bit)
        requires
            pin < old(self)@.input.len(),
        ensures
            final(self)@ == old(self)@.with_input(pin as int, v),
            final(self).spec_comp() == old(self).spec_comp(),
    {
        self.input[pin] = v;
    }
}

impl Component {
    /// The model of a component is of the component's kind.
    pub proof fn lemma_kind(self)
        ensures
            self@ is Nand <==> self is Nand,
            self@ is ConstantBit <==> self is ConstantBit,
            self@ is Stdin <==> self is Stdin,
            self@ is Stdout <==> self is Stdout,
            self@ is Network <==> self is Network,
            self is Network ==> self@->Network_0 == self->Network_0@,
    {
    }

    pub fn num_inputs(&self) -> (n: usize)
        ensures
            n == self@.num_inputs(),
    {
        match self {
            Component::Nand(c) => c.num_inputs(),
            Component::ConstantBit(_) => 0,
            Component::Stdin(_) => 1,
            Component::Stdout(_) => 9,
            Component::Network(c) => c.num_inputs(),
        }
    }

    pub fn num_outputs(&self) -> (n: usize)
        ensures
            n == self@.num_outputs(),
    {
        match self {
            Component::Nand(_) => 1,
            Component::ConstantBit(_) => 3,
            Component::Stdin(_) => 9,
            Component::Stdout(_) => 0,
            Component::Network(c) => c.num_outputs(),
        }
    }

    /// Whether the component is to be evaluated on the next tick even if
    /// none of its inputs changes.
    pub fn needs_update(&self) -> (r: bool)
        ensures
            r == self@.needs_update(),
    {
        match self {
            Component::Network(_) => true,
            _ => false,
        }
    }

    /// Makes one tick with `input` at the inputs and returns the outputs.
    pub fn update(&mut self, input: &[Bit]) -> (out: Vec<Bit>)
        requires
            old(self)@.wf(),
            input@.len() == old(self)@.num_inputs(),
        ensures
            old(self)@.steps_to(input@, final(self)@, out@),
            final(self)@.wf(),
            final(self)@.num_inputs() == old(self)@.num_inputs(),
            final(self)@.num_outputs() == old(self)@.num_outputs(),
            out@.len() == old(self)@.num_outputs(),
            old(self)@ is Network ==> {
                let before = old(self)@->Network_0;
                let after = final(self)@->Network_0;
                &&& final(self)@ is Network
                &&& after.input() == input@
                &&& after.output() == out@
                &&& before.single_fed() ==> after.single_fed() && after.delivered()
                &&& before.settled() && input@ == before.input() ==> after == before.acknowledged()
                    && out@ == before.output()
            },
        decreases *old(self), 0nat,
    {
        match self {
            Component::Nand(c) => c.update(input),
            Component::ConstantBit(c) => c.update(input),
            Component::Stdin(c) => c.update(input),
            Component::Stdout(c) => c.update(input),
            Component::Network(c) => c.update(input),
        }
    }
}

impl CompIo {
    /// Evaluates the slot: the component makes a tick on the values at the
    /// input pins, and the slot records the new output and whether it
    /// differs from the old one.
    pub fn update(&mut self)
        requires
            old(self)@.comp.wf(),
            old(self)@.input.len() == old(self)@.comp.num_inputs(),
        ensures
            old(self)@.comp.steps_to(old(self)@.input, final(self)@.comp, final(self)@.output),
            final(self)@.input == old(self)@.input,
            final(self)@.connections == old(self)@.connections,
            final(self)@.output_changed == (final(self)@.output != old(self)@.output),
            final(self)@.comp.wf(),
            final(self)@.comp.num_inputs() == old(self)@.comp.num_inputs(),
            final(self)@.comp.num_outputs() == old(self)@.comp.num_outputs(),
            final(self)@.output.len() == old(self)@.comp.num_outputs(),
        decreases old(self).spec_comp(), 1nat,
    {
        let new_output = self.comp.update(self.input.as_slice());
        if same_bits(new_output.as_slice(), self.output.as_slice()) {
            self.output_changed = false;
        } else {
            self.output = new_output;
            self.output_changed = true;
        }
    }
}

impl Network {
    pub open spec fn wf(&self) -> bool {
        self@.wf()
    }

    /// Whether `other` has the signature, the wiring and the components of
    /// `self`, whatever the pins and flags hold.
    pub closed spec fn same_parts(&self, other: Network) -> bool {
        &&& other.info == self.info
        &&& other.connections == self.connections
        &&& other.components@.len() == self.components@.len()
        &&& forall|i: int|
            0 <= i < self.components@.len() ==> (#[trigger] other.components@[i]).comp
                == self.components@[i].comp
    }

    pub fn num_inputs(&self) -> (n: usize)
        ensures
            n == self@.num_inputs(),
    {
        self.info.inputs.len()
    }

    pub fn num_outputs(&self) -> (n: usize)
        ensures
            n == self@.num_outputs(),
    {
        self.info.outputs.len()
    }

    fn deliver(&mut self, to: Index, value: Bit)
        requires
            old(self)@.valid_target(to),
            old(self)@.dirty.len() == old(self)@.slots.len(),
        ensures
            final(self)@ == old(self)@.deliver(to, value),
            old(self).same_parts(*final(self)),
    {
        let c = to.comp_id;
        let p = to.input_id;
        assert(self@.slots[c as int] == self.components@[c as int]@);
        if self.components[c].input[p] != value {
            self.components[c].set_input(p, value);
            self.component_dirty[c] = true;
            assert(self@.slots =~= old(self)@.slots.update(
                c as int,
                old(self)@.slots[c as int].with_input(p as int, value),
            ));
        }
    }

    /// Delivers the outputs of slot `c_id` along their fan-out lists.
    fn propagate(&mut self, c_id: usize)
        requires
            old(self)@.wf(),
            c_id < old(self)@.slots.len(),
        ensures
            final(self)@ == old(self)@.propagate(c_id as int),
            old(self)@.same_frame(final(self)@),
            old(self).same_parts(*final(self)),
            final(self)@.wf(),
    {
        let ghost pre = self@;
        assert(pre.connections[c_id as int] == fanout_view(self.connections@[c_id as int]@));
        let n_out = self.connections[c_id].len();
        let mut out_id: usize = 0;
        while out_id < n_out
            invariant
                out_id <= n_out,
                n_out == pre.connections[c_id as int].len(),
                pre == old(self)@,
                pre.wf(),
                c_id < pre.slots.len(),
                self@ == pre.propagate_ports(c_id as int, out_id as nat),
                pre.same_frame(self@),
                old(self).same_parts(*self),
            decreases n_out - out_id,
        {
            assert(pre.connections[c_id as int].len() == pre.slots[c_id as int].output.len());
            assert(self@.slots[c_id as int] == self.components@[c_id as int]@);
            assert(self.connections == old(self).connections);
            assert(pre.connections[c_id as int] == fanout_view(self.connections@[c_id as int]@));
            assert(pre.connections[c_id as int][out_id as int] == self.connections@[c_id as int]@[out_id as int]@);
            let value = self.components[c_id].output[out_id];
            let n_to = self.connections[c_id][out_id].len();
            let ghost targets = pre.connections[c_id as int][out_id as int];
            let ghost mid = self@;
            assert forall|j: int| 0 <= j < targets.len() implies mid.valid_target(
                #[trigger] targets[j],
            ) by {
                let t = pre.connections[c_id as int][out_id as int][j];
                assert(pre.valid_target(t));
                assert(mid.slots[t.comp_id as int].input.len() == pre.slots[t.comp_id as int].input.len());
            }
            let mut k: usize = 0;
            while k < n_to
                invariant
                    k <= n_to,
                    n_to == targets.len(),
                    out_id < n_out,
                    n_out == pre.connections[c_id as int].len(),
                    c_id < pre.slots.len(),
                    pre == old(self)@,
                    pre.wf(),
                    targets == pre.connections[c_id as int][out_id as int],
                    forall|j: int| 0 <= j < targets.len() ==> mid.valid_target(#[trigger] targets[j]),
                    mid.dirty.len() == mid.slots.len(),
                    pre.same_frame(mid),
                    mid.same_frame(self@),
                    self@ == mid.deliver_all(targets.take(k as int), value),
                    old(self).same_parts(*self),
                decreases n_to - k,
            {
                assert(self.connections == old(self).connections);
                assert(pre.connections[c_id as int] == fanout_view(self.connections@[c_id as int]@));
                assert(targets == self.connections@[c_id as int]@[out_id as int]@);
                let to = self.connections[c_id][out_id][k];
                assert(to == targets[k as int]);
                assert(mid.valid_target(to));
                assert(self@.slots[to.comp_id as int].input.len() == mid.slots[to.comp_id as int].input.len());
                let ghost before = self@;
                self.deliver(to, value);
                k += 1;
                proof {
                    assert(targets.take(k as int).drop_last() =~= targets.take(k - 1));
                    assert(targets.take(k as int).last() == to);
                    before.lemma_deliver_frame(to, value);
                    mid.lemma_frame_trans(before, self@);
                }
            }
            out_id += 1;
            proof {
                assert(targets.take(targets.len() as int) =~= targets);
                pre.lemma_frame_trans(mid, self@);
            }
        }
        proof {
            pre.lemma_frame_wf(self@);
        }
    }

    /// The first phase of a tick: commits `input` and, if it differs from
    /// what was committed before, delivers it.
    fn propagate_input(&mut self, input: &[Bit])
        requires
            old(self)@.wf(),
            input@.len() == old(self)@.num_inputs(),
        ensures
            final(self)@ == old(self)@.commit_input(input@),
            old(self).same_parts(*final(self)),
            final(self)@.wf(),
            final(self)@.slots.len() == old(self)@.slots.len(),
            forall|i: int|
                1 <= i < old(self)@.slots.len() ==> (#[trigger] final(self)@.slots[i]).comp
                    == old(self)@.slots[i].comp,
    {
        assert(self@.slots[0] == self.components@[0]@);
        if same_bits(self.components[0].output.as_slice(), input) {
            self.components[0].output_changed = false;
            assert(self@.slots =~= old(self)@.slots.update(
                0,
                SlotModel { output_changed: false, ..old(self)@.slots[0] },
            ));
            assert(self@.wf()) by {
                let a = old(self)@;
                let b = self@;
                assert forall|i: int| 1 <= i < b.slots.len() implies {
                    &&& (#[trigger] b.slots[i]).comp.wf()
                    &&& b.slots[i].input.len() == b.slots[i].comp.num_inputs()
                    &&& b.slots[i].output.len() == b.slots[i].comp.num_outputs()
                } by {
                    assert(b.slots[i] == a.slots[i]);
                }
                assert forall|i: int| 0 <= i < b.slots.len() implies (#[trigger] b.connections[i]).len()
                    == b.slots[i].output.len() by {
                    assert(a.connections[i].len() == a.slots[i].output.len());
                }
                assert forall|i: int, o: int, k: int|
                    0 <= i < b.connections.len() && 0 <= o < b.connections[i].len() && 0 <= k
                        < b.connections[i][o].len() implies b.valid_target(
                    #[trigger] b.connections[i][o][k],
                ) by {
                    assert(a.valid_target(a.connections[i][o][k]));
                }
            }
        } else {
            self.components[0].output = copy_slice(input);
            let ghost staged = self@;
            assert(staged.slots =~= old(self)@.slots.update(
                0,
                SlotModel { output: input@, ..old(self)@.slots[0] },
            ));
            assert(staged.wf()) by {
                let a = old(self)@;
                let b = staged;
                assert forall|i: int| 1 <= i < b.slots.len() implies {
                    &&& (#[trigger] b.slots[i]).comp.wf()
                    &&& b.slots[i].input.len() == b.slots[i].comp.num_inputs()
                    &&& b.slots[i].output.len() == b.slots[i].comp.num_outputs()
                } by {
                    assert(b.slots[i] == a.slots[i]);
                }
                assert forall|i: int| 0 <= i < b.slots.len() implies (#[trigger] b.connections[i]).len()
                    == b.slots[i].output.len() by {
                    assert(a.connections[i].len() == a.slots[i].output.len());
                }
                assert forall|i: int, o: int, k: int|
                    0 <= i < b.connections.len() && 0 <= o < b.connections[i].len() && 0 <= k
                        < b.connections[i][o].len() implies b.valid_target(
                    #[trigger] b.connections[i][o][k],
                ) by {
                    assert(a.valid_target(a.connections[i][o][k]));
                }
            }
            self.propagate(0);
        }
    }

    /// The values at the network's inputs, as last committed.
    pub fn input(&self) -> (r: Vec<Bit>)
        requires
            self@.slots.len() >= 1,
        ensures
            r@ == self@.input(),
    {
        assert(self@.slots[0] == self.components@[0]@);
        copy_bits(&self.components[0].output)
    }

    /// The values at the network's outputs.
    pub fn output(&self) -> (r: Vec<Bit>)
        requires
            self@.slots.len() >= 1,
        ensures
            r@ == self@.output(),
    {
        assert(self@.slots[0] == self.components@[0]@);
        copy_bits(&self.components[0].input)
    }

    /// The third phase of a tick: delivers the outputs of the slots whose
    /// output changed.
    fn propagate_signals(&mut self)
        requires
            old(self)@.wf(),
        ensures
            final(self)@ == old(self)@.propagate_all(),
            final(self)@.wf(),
            old(self)@.same_frame(final(self)@),
    {
        let ghost pre = self@;
        let n = self.components.len();
        let mut c: usize = 1;
        while c < n
            invariant
                1 <= c <= n,
                n == pre.slots.len(),
                pre.wf(),
                self@ == pre.propagate_changed(c as nat),
                pre.same_frame(self@),
                self@.wf(),
            decreases n - c,
        {
            assert(self@.slots[c as int] == self.components@[c as int]@);
            assert(self@.slots[c as int].output_changed == pre.slots[c as int].output_changed);
            if self.components[c].output_changed {
                self.propagate(c);
            }
            c += 1;
            proof {
                pre.lemma_propagate_changed_frame(c as nat);
            }
        }
    }

    /// Makes one tick: commits `input`, evaluates the dirty slots on the
    /// values they held before this tick, delivers the changed outputs for
    /// the next tick, and returns what the outputs then hold.
    pub fn update(&mut self, input: &[Bit]) -> (out: Vec<Bit>)
        requires
            old(self)@.wf(),
            input@.len() == old(self)@.num_inputs(),
        ensures
            old(self)@.steps_to(input@, final(self)@, out@),
            final(self)@.wf(),
            final(self)@.info == old(self)@.info,
            out@.len() == old(self)@.num_outputs(),
            final(self)@.input() == input@,
            final(self)@.output() == out@,
            old(self)@.single_fed() ==> final(self)@.single_fed() && final(self)@.delivered(),
            old(self)@.settled() && input@ == old(self)@.input() ==> final(self)@ == old(
                self,
            )@.acknowledged() && out@ == old(self)@.output(),
        decreases *old(self), 3nat,
    {
        let ghost root = *self;
        self.propagate_input(input);
        let ghost pre = self@;
        self.update_components(Ghost(root));
        let ghost mid = self@;
        self.propagate_signals();
        proof {
            assert(root@.evaluated(pre, mid)) by {
                assert forall|i: int| 1 <= i < root@.slots.len() implies if pre.dirty[i] {
                    &&& root@.slot_evaluated(i, pre.slots[i], #[trigger] mid.slots[i])
                    &&& mid.dirty[i] == mid.slots[i].comp.needs_update()
                } else {
                    &&& mid.slots[i] == pre.slots[i]
                    &&& mid.dirty[i] == pre.dirty[i]
                } by {
                    assert(pre.slots[i].comp == root@.slots[i].comp);
                    if pre.dirty[i] {
                        assert(pre.slot_evaluated(i, pre.slots[i], mid.slots[i]));
                    }
                }
            }
            assert(self@ == mid.propagate_all());
        }
        let out = self.output();
        proof {
            let before = root@;
            assert(before.steps_to(input@, self@, out@));
            before.lemma_committed(input@);
            assert(mid.slots[0] == pre.slots[0]);
            if before.single_fed() {
                before.lemma_tick_delivers(input@, self@, out@);
            }
            if before.settled() && input@ == before.input() {
                before.lemma_settled_tick(self@, out@);
            }
        }
        out
    }

    /// The second phase of a tick: evaluates each dirty slot but the
    /// boundary.
    fn update_components(&mut self, Ghost(root): Ghost<Network>)
        requires
            old(self)@.wf(),
            root.same_parts(*old(self)),
        ensures
            old(self)@.evaluated(old(self)@, final(self)@),
            final(self)@.wf(),
        decreases root, 2nat,
    {
        let ghost pre = self@;
        let n = self.components.len();
        let mut c: usize = 1;
        while c < n
            invariant
                1 <= c <= n,
                n == pre.slots.len(),
                n == self.components@.len(),
                pre == old(self)@,
                pre.wf(),
                self@.wf(),
                root.components@.len() == n,
                self@.info == pre.info,
                self@.connections == pre.connections,
                self@.dirty.len() == pre.dirty.len(),
                self@.slots[0] == pre.slots[0],
                self@.dirty[0] == pre.dirty[0],
                forall|i: int| 0 <= i < n ==> (#[trigger] self@.slots[i]).input == pre.slots[i].input,
                forall|i: int|
                    c <= i < n ==> (#[trigger] self.components@[i]).comp == root.components@[i].comp,
                forall|i: int| c <= i < n ==> (#[trigger] self@.slots[i]) == pre.slots[i],
                forall|i: int| c <= i < n ==> (#[trigger] self@.dirty[i]) == pre.dirty[i],
                forall|i: int|
                    1 <= i < c ==> if pre.dirty[i] {
                        &&& pre.slot_evaluated(i, pre.slots[i], #[trigger] self@.slots[i])
                        &&& self@.dirty[i] == self@.slots[i].comp.needs_update()
                    } else {
                        &&& self@.slots[i] == pre.slots[i]
                        &&& self@.dirty[i] == pre.dirty[i]
                    },
            decreases n - c,
        {
            let ghost before = self@;
            assert(before.slots[c as int] == self.components@[c as int]@);
            assert(before.slots[c as int] == pre.slots[c as int]);
            if self.component_dirty[c] {
                assert(pre.slots[c as int].comp.wf());
                self.components[c].update();
                let again = self.components[c].comp.needs_update();
                self.component_dirty[c] = again;
                proof {
                    let after = self@;
                    assert(after.slots[c as int] == self.components@[c as int]@);
                    assert forall|i: int| 0 <= i < n && i != c implies #[trigger] after.slots[i]
                        == before.slots[i] by {}
                    assert(after.wf()) by {
                        assert forall|i: int| 1 <= i < after.slots.len() implies {
                            &&& (#[trigger] after.slots[i]).comp.wf()
                            &&& after.slots[i].input.len() == after.slots[i].comp.num_inputs()
                            &&& after.slots[i].output.len() == after.slots[i].comp.num_outputs()
                        } by {
                            if i != c {
                                assert(after.slots[i] == before.slots[i]);
                            }
                        }
                        assert forall|i: int| 0 <= i < after.slots.len() implies (
                        #[trigger] after.connections[i]).len() == after.slots[i].output.len() by {
                            assert(before.connections[i].len() == before.slots[i].output.len());
                            if i != c {
                                assert(after.slots[i] == before.slots[i]);
                            }
                        }
                        assert forall|i: int, o: int, k: int|
                            0 <= i < after.connections.len() && 0 <= o < after.connections[i].len()
                                && 0 <= k < after.connections[i][o].len() implies after.valid_target(
                            #[trigger] after.connections[i][o][k],
                        ) by {
                            let t = before.connections[i][o][k];
                            assert(before.valid_target(t));
                            assert(after.slots[t.comp_id as int].input == before.slots[t.comp_id as int].input);
                        }
                    }
                }
            }
            c += 1;
        }
    }
}

/// The bits of `bits` as a vector.
fn copy_slice(bits: &[Bit]) -> (v: Vec<Bit>)
    ensures
        v@ == bits@,
{
    let mut v: Vec<Bit> = Vec::new();
    let mut i: usize = 0;
    while i < bits.len()
        invariant
            i <= bits.len(),
            v@ == bits@.take(i as int),
        decreases bits.len() - i,
    {
        v.push(bits[i]);
        i += 1;
        assert(v@ =~= bits@.take(i as int));
    }
    assert(bits@.take(bits@.len() as int) =~= bits@);
    v
}

fn push_name(v: &mut Vec<String>, name: &str)
    ensures
        names_view(final(v)@) == names_view(old(v)@).push(name@),
{
    v.push(String::from_str(name));
    assert(names_view(v@) =~= names_view(old(v)@).push(name@));
}

/// The port names of the bridges' data side: a flag or clock line, then the
/// eight data bits from the most significant.
fn bridge_names(first: &str) -> (v: Vec<String>)
    ensures
        names_view(v@) == seq![
            first@,
            "x7"@,
            "x6"@,
            "x5"@,
            "x4"@,
            "x3"@,
            "x2"@,
            "x1"@,
            "x0"@,
        ],
{
    let mut v: Vec<String> = Vec::new();
    assert(names_view(v@) =~= Seq::<Seq<char>>::empty());
    push_name(&mut v, first);
    push_name(&mut v, "x7");
    push_name(&mut v, "x6");
    push_name(&mut v, "x5");
    push_name(&mut v, "x4");
    push_name(&mut v, "x3");
    push_name(&mut v, "x2");
    push_name(&mut v, "x1");
    push_name(&mut v, "x0");
    assert(names_view(v@) =~= seq![
        first@,
        "x7"@,
        "x6"@,
        "x5"@,
        "x4"@,
        "x3"@,
        "x2"@,
        "x1"@,
        "x0"@,
    ]);
    v
}

impl Nand {
    pub fn port_names(&self) -> (r: PortNames)
        ensures
            r.spec_input() == self@.input_names(),
            r.spec_output() == self@.output_names(),
    {
        PortNames::default(self.num_inputs, 1)
    }
}

impl ConstantBit {
    pub fn port_names(&self) -> (r: PortNames)
        ensures
            r.spec_input() == ComponentModel::ConstantBit.input_names(),
            r.spec_output() == ComponentModel::ConstantBit.output_names(),
    {
        let input: Vec<String> = Vec::new();
        let mut output: Vec<String> = Vec::new();
        assert(names_view(input@) =~= Seq::<Seq<char>>::empty());
        assert(names_view(output@) =~= Seq::<Seq<char>>::empty());
        push_name(&mut output, "o0");
        push_name(&mut output, "o1");
        push_name(&mut output, "oX");
        assert(names_view(output@) =~= seq!["o0"@, "o1"@, "oX"@]);
        PortNames { input, output }
    }
}

impl Stdin {
    pub fn port_names(&self) -> (r: PortNames)
        ensures
            r.spec_input() == ComponentModel::Stdin(self@).input_names(),
            r.spec_output() == ComponentModel::Stdin(self@).output_names(),
    {
        let mut input: Vec<String> = Vec::new();
        assert(names_view(input@) =~= Seq::<Seq<char>>::empty());
        push_name(&mut input, "clk");
        assert(names_view(input@) =~= seq!["clk"@]);
        PortNames { input, output: bridge_names("EOF") }
    }

    /// A bridge in the same state on the same source.
    pub fn duplicate(&self) -> (r: Self)
        ensures
            r@ == self@,
    {
        let buf = match &self.buf {
            Some(b) => Some(b.clone()),
            None => None,
        };
        Stdin { last_clk: self.last_clk, last_out: copy_bits(&self.last_out), eof: self.eof, buf }
    }
}

impl Stdout {
    pub fn port_names(&self) -> (r: PortNames)
        ensures
            r.spec_input() == ComponentModel::Stdout(self@).input_names(),
            r.spec_output() == ComponentModel::Stdout(self@).output_names(),
    {
        let output: Vec<String> = Vec::new();
        assert(names_view(output@) =~= Seq::<Seq<char>>::empty());
        PortNames { input: bridge_names("clk"), output }
    }

    /// A bridge in the same state on the same sink.
    pub fn duplicate(&self) -> (r: Self)
        ensures
            r@ == self@,
    {
        let buf = match &self.buf {
            Some(b) => Some(b.clone()),
            None => None,
        };
        Stdout { last_clk: self.last_clk, buf }
    }
}

impl Component {
    /// The name of the component's kind.
    pub fn name(&self) -> (r: &str)
        ensures
            r@ == self@.name(),
    {
        match self {
            Component::Nand(_) => "Nand",
            Component::ConstantBit(_) => "ConstantBit",
            Component::Stdin(_) => "Stdin",
            Component::Stdout(_) => "Stdout",
            Component::Network(c) => c.name(),
        }
    }

    pub fn port_names(&self) -> (r: PortNames)
        ensures
            r.spec_input() == self@.input_names(),
            r.spec_output() == self@.output_names(),
    {
        match self {
            Component::Nand(c) => c.port_names(),
            Component::ConstantBit(c) => c.port_names(),
            Component::Stdin(c) => c.port_names(),
            Component::Stdout(c) => c.port_names(),
            Component::Network(c) => c.port_names(),
        }
    }

    /// The values at the input pins of every slot, for a network.
    pub fn internal_inputs(&self) -> (r: Option<Vec<Vec<Bit>>>)
        ensures
            r is Some == self@.internal_inputs() is Some,
            r is Some ==> r->0@.len() == self@.internal_inputs()->0.len() && forall|i: int|
                0 <= i < r->0@.len() ==> (#[trigger] r->0@[i])@ == self@.internal_inputs()->0[i],
    {
        match self {
            Component::Network(c) => Some(c.internal_inputs()),
            _ => None,
        }
    }

    /// The network, if the component is one.
    pub fn as_structural(&self) -> (r: Option<&Network>)
        ensures
            match self {
                Component::Network(n) => r == Some(n),
                _ => r is None,
            },
    {
        match self {
            Component::Network(c) => Some(c),
            _ => None,
        }
    }

    /// The component as a network: a copy of it if it is one, and otherwise
    /// a network made of a copy of it alone.
    pub fn clone_as_structural(&self) -> (r: Option<Network>)
        ensures
            r is Some,
            r->0@ == (match self@ {
                ComponentModel::Network(n) => n,
                _ => self@.wrapped(),
            }),
    {
        match self {
            Component::Network(c) => Some(c.duplicate()),
            _ => Some(Network::new_wrap(self.box_clone())),
        }
    }

    /// A copy of the component in the same state. The copy of a bridge shares
    /// the stream of the bridge.
    pub fn box_clone(&self) -> (r: Component)
        ensures
            r@ == self@,
        decreases self, 0nat,
    {
        match self {
            Component::Nand(c) => Component::Nand(*c),
            Component::ConstantBit(c) => Component::ConstantBit(*c),
            Component::Stdin(c) => Component::Stdin(c.duplicate()),
            Component::Stdout(c) => Component::Stdout(c.duplicate()),
            Component::Network(c) => Component::Network(c.duplicate()),
        }
    }
}

impl CompIo {
    /// A copy of the slot in the same state.
    pub fn duplicate(&self) -> (r: CompIo)
        ensures
            r@ == self@,
        decreases self, 1nat,
    {
        CompIo {
            comp: self.comp.box_clone(),
            input: copy_bits(&self.input),
            output: copy_bits(&self.output),
            connections: copy_fanout(&self.connections),
            output_changed: self.output_changed,
        }
    }
}

/// A copy of the fan-out lists of all slots.
fn copy_wiring(wiring: &Vec<Vec<Vec<Index>>>) -> (v: Vec<Vec<Vec<Index>>>)
    ensures
        wiring_view(v@) == wiring_view(wiring@),
{
    let mut v: Vec<Vec<Vec<Index>>> = Vec::new();
    let mut i: usize = 0;
    while i < wiring.len()
        invariant
            i <= wiring.len(),
            v@.len() == i,
            forall|j: int| 0 <= j < i ==> fanout_view((#[trigger] v@[j])@) == fanout_view(wiring@[j]@),
        decreases wiring.len() - i,
    {
        v.push(copy_fanout(&wiring[i]));
        i += 1;
    }
    assert(wiring_view(v@) =~= wiring_view(wiring@));
    v
}

fn copy_flags(flags: &Vec<bool>) -> (v: Vec<bool>)
    ensures
        v@ == flags@,
{
    let mut v: Vec<bool> = Vec::new();
    let mut i: usize = 0;
    while i < flags.len()
        invariant
            i <= flags.len(),
            v@ == flags@.take(i as int),
        decreases flags.len() - i,
    {
        v.push(flags[i]);
        i += 1;
        assert(v@ =~= flags@.take(i as int));
    }
    assert(flags@.take(flags@.len() as int) =~= flags@);
    v
}

impl Network {
    /// The network's name.
    pub fn name(&self) -> (r: &str)
        ensures
            r@ == self@.info.name,
    {
        self.info.name.as_str()
    }

    pub fn port_names(&self) -> (r: PortNames)
        ensures
            r.spec_input() == self@.info.inputs,
            r.spec_output() == self@.info.outputs,
    {
        PortNames::new_vec(copy_names(&self.info.inputs), copy_names(&self.info.outputs))
    }

    /// The values at the input pins of every slot.
    pub fn internal_inputs(&self) -> (r: Vec<Vec<Bit>>)
        ensures
            r@.len() == self@.slots.len(),
            forall|i: int| 0 <= i < r@.len() ==> (#[trigger] r@[i])@ == self@.slots[i].input,
    {
        let mut v: Vec<Vec<Bit>> = Vec::new();
        let mut i: usize = 0;
        while i < self.components.len()
            invariant
                i <= self.components.len(),
                v@.len() == i,
                forall|j: int| 0 <= j < i ==> (#[trigger] v@[j])@ == self@.slots[j].input,
            decreases self.components.len() - i,
        {
            assert(self@.slots[i as int] == self.components@[i as int]@);
            v.push(copy_bits(&self.components[i].input));
            i += 1;
        }
        v
    }

    /// A copy of the network in the same state.
    pub fn duplicate(&self) -> (r: Network)
        ensures
            r@ == self@,
        decreases self, 2nat,
    {
        let mut components: Vec<CompIo> = Vec::new();
        let mut i: usize = 0;
        while i < self.components.len()
            invariant
                i <= self.components.len(),
                components@.len() == i,
                forall|j: int| 0 <= j < i ==> (#[trigger] components@[j])@ == self.components@[j]@,
            decreases self.components.len() - i,
        {
            components.push(self.components[i].duplicate());
            i += 1;
        }
        let r = Network {
            components,
            info: Rc::new(self.info.duplicate()),
            connections: copy_wiring(&self.connections),
            component_dirty: copy_flags(&self.component_dirty),
        };
        assert(r@.slots =~= self@.slots);
        r
    }

    /// The network of the slots `components`, wired as the slots say, with
    /// every slot due for evaluation.
    pub fn new(components: Vec<CompIo>, info: Rc<CompInfo>) -> (r: Network)
        requires
            components@.len() >= 1,
            components@[0]@.input.len() == info@.outputs.len(),
            components@[0]@.output.len() == info@.inputs.len(),
        ensures
            r@ == NetModel::assemble(info@, Seq::new(components@.len(), |i: int| components@[i]@)),
            r.components == components,
            r.info == info,
    {
        let mut connections: Vec<Vec<Vec<Index>>> = Vec::new();
        let mut dirty: Vec<bool> = Vec::new();
        let mut i: usize = 0;
        while i < components.len()
            invariant
                i <= components.len(),
                connections@.len() == i,
                dirty@.len() == i,
                forall|j: int|
                    0 <= j < i ==> fanout_view((#[trigger] connections@[j])@)
                        == components@[j]@.connections,
                forall|j: int| 0 <= j < i ==> #[trigger] dirty@[j],
            decreases components.len() - i,
        {
            connections.push(copy_fanout(&components[i].connections));
            dirty.push(true);
            i += 1;
        }
        let r = Network { components, info, connections, component_dirty: dirty };
        let ghost slots = Seq::new(components@.len(), |i: int| components@[i]@);
        assert(r@.slots =~= slots);
        assert(r@.connections =~= NetModel::assemble(info@, slots).connections);
        assert(r@.dirty =~= NetModel::assemble(info@, slots).dirty);
        r
    }

    /// The network of the slots `components` under the given name and port
    /// names.
    pub fn new_legacy(
        components: Vec<CompIo>,
        num_inputs: usize,
        num_outputs: usize,
        name: &str,
        port_names: PortNames,
    ) -> (r: Network)
        requires
            components@.len() >= 1,
            components@[0]@.input.len() == num_outputs,
            components@[0]@.output.len() == num_inputs,
            components@[0]@.connections.len() == num_inputs,
            port_names.spec_input().len() == num_inputs,
            port_names.spec_output().len() == num_outputs,
        ensures
            r@ == NetModel::assemble(
                InfoModel {
                    name: name@,
                    inputs: port_names.spec_input(),
                    outputs: port_names.spec_output(),
                },
                Seq::new(components@.len(), |i: int| components@[i]@),
            ),
    {
        let PortNames { input, output } = port_names;
        let info = Rc::new(CompInfo::new(String::from_str(name), input, output));
        Network::new(components, info)
    }

    /// The network made of `component` alone, each port of the network wired
    /// to the port of the same number of the component.
    pub fn new_wrap(component: Component) -> (r: Network)
        ensures
            r@ == component@.wrapped(),
    {
        let port_names = component.port_names();
        let num_inputs = component.num_inputs();
        let num_outputs = component.num_outputs();
        let mut name = String::from_str("w");
        name.append(component.name());
        let mut c_zero = CompIo::c_zero(num_inputs, num_outputs);
        let ghost model = component@;
        let mut c_one = CompIo::new(component);
        let mut i: usize = 0;
        while i < num_inputs
            invariant
                i <= num_inputs,
                c_zero@.comp == (ComponentModel::Nand { num_inputs: 0 }),
                c_zero@.input == spec_unknown(num_outputs as nat),
                c_zero@.output == spec_unknown(num_inputs as nat),
                c_zero@.output_changed,
                c_zero@.connections.len() == num_inputs,
                forall|j: int|
                    0 <= j < i ==> (#[trigger] c_zero@.connections[j]) == seq![
                        Index { comp_id: 1, input_id: j as usize },
                    ],
                forall|j: int|
                    i <= j < num_inputs ==> (#[trigger] c_zero@.connections[j])
                        == Seq::<Index>::empty(),
            decreases num_inputs - i,
        {
            c_zero.add_connection(i, Index::new(1, i));
            assert(c_zero@.connections[i as int] =~= seq![Index { comp_id: 1, input_id: i }]);
            i += 1;
        }
        let mut i: usize = 0;
        while i < num_outputs
            invariant
                i <= num_outputs,
                c_one@.comp == model,
                c_one@.input == spec_unknown(num_inputs as nat),
                c_one@.output == spec_unknown(num_outputs as nat),
                c_one@.output_changed,
                c_one@.connections.len() == num_outputs,
                forall|j: int|
                    0 <= j < i ==> (#[trigger] c_one@.connections[j]) == seq![
                        Index { comp_id: 0, input_id: j as usize },
                    ],
                forall|j: int|
                    i <= j < num_outputs ==> (#[trigger] c_one@.connections[j])
                        == Seq::<Index>::empty(),
            decreases num_outputs - i,
        {
            c_one.add_connection(i, Index::new(0, i));
            assert(c_one@.connections[i as int] =~= seq![Index { comp_id: 0, input_id: i }]);
            i += 1;
        }
        assert(c_zero@.connections =~= spec_straight_fanout(1, num_inputs as nat));
        assert(c_one@.connections =~= spec_straight_fanout(0, num_outputs as nat));
        let mut components: Vec<CompIo> = Vec::new();
        components.push(c_zero);
        components.push(c_one);
        let r = Network::new_legacy(components, num_inputs, num_outputs, name.as_str(), port_names);
        assert(Seq::new(components@.len(), |i: int| components@[i]@) =~= seq![c_zero@, c_one@]);
        r
    }
}

impl Clone for Component {
    fn clone(&self) -> (r: Self)
        ensures
            r@ == self@,
    {
        self.box_clone()
    }
}

impl Clone for Network {
    fn clone(&self) -> (r: Self)
        ensures
            r@ == self@,
    {
        self.duplicate()
    }
}

impl Clone for CompIo {
    fn clone(&self) -> (r: Self)
        ensures
            r@ == self@,
    {
        self.duplicate()
    }
}

impl Clone for Stdin {
    fn clone(&self) -> (r: Self)
        ensures
            r@ == self@,
    {
        self.duplicate()
    }
}

impl Clone for Stdout {
    fn clone(&self) -> (r: Self)
        ensures
            r@ == self@,
    {
        self.duplicate()
    }
}

impl Stdin {
    /// Whether the bridge holds eight data bits.
    pub fn is_valid(&self) -> (r: bool)
        ensures
            r == self@.wf(),
    {
        self.last_out.len() == 8
    }
}

impl Component {
    /// Whether the component is in order: see `NetModel::wf` for a network.
    /// A primitive of the four is always in order, the input bridge if it
    /// holds eight data bits.
    pub fn is_valid(&self) -> (r: bool)
        ensures
            r == self@.wf(),
        decreases self, 0nat,
    {
        match self {
            Component::Stdin(c) => c.is_valid(),
            Component::Network(c) => c.is_valid(),
            _ => true,
        }
    }
}

impl Network {
    /// Whether every entry of the fan-out lists of the slot `i` is an input
    /// pin of a slot.
    fn targets_valid(&self, i: usize) -> (r: bool)
        requires
            i < self.connections@.len(),
        ensures
            r == forall|o: int, k: int|
                0 <= o < self@.connections[i as int].len() && 0 <= k
                    < self@.connections[i as int][o].len() ==> self@.valid_target(
                    #[trigger] self@.connections[i as int][o][k],
                ),
    {
        let ghost fan = self@.connections[i as int];
        assert(fan == fanout_view(self.connections@[i as int]@));
        let n = self.components.len();
        let mut o: usize = 0;
        while o < self.connections[i].len()
            invariant
                o <= self.connections@[i as int]@.len(),
                i < self.connections@.len(),
                n == self.components@.len(),
                fan == self@.connections[i as int],
                fan == fanout_view(self.connections@[i as int]@),
                forall|a: int, k: int|
                    0 <= a < o && 0 <= k < fan[a].len() ==> self@.valid_target(#[trigger] fan[a][k]),
            decreases self.connections@[i as int]@.len() - o,
        {
            let mut k: usize = 0;
            assert(fan[o as int] == self.connections@[i as int]@[o as int]@);
            while k < self.connections[i][o].len()
                invariant
                    o < self.connections@[i as int]@.len(),
                    i < self.connections@.len(),
                    k <= self.connections@[i as int]@[o as int]@.len(),
                    n == self.components@.len(),
                    fan == self@.connections[i as int],
                    fan[o as int] == self.connections@[i as int]@[o as int]@,
                    forall|b: int| 0 <= b < k ==> self@.valid_target(#[trigger] fan[o as int][b]),
                decreases self.connections@[i as int]@[o as int]@.len() - k,
            {
                let t = self.connections[i][o][k];
                assert(t == fan[o as int][k as int]);
                if t.comp_id >= n {
                    assert(!self@.valid_target(fan[o as int][k as int]));
                    return false;
                }
                assert(self@.slots[t.comp_id as int] == self.components@[t.comp_id as int]@);
                if t.input_id >= self.components[t.comp_id].input.len() {
                    assert(!self@.valid_target(fan[o as int][k as int]));
                    return false;
                }
                k += 1;
            }
            o += 1;
        }
        true
    }

    /// Whether the network is in order: see `NetModel::wf`.
    pub fn is_valid(&self) -> (r: bool)
        ensures
            r == self@.wf(),
        decreases self, 1nat,
    {
        let ghost net = self@;
        let n = self.components.len();
        if n == 0 || self.connections.len() != n || self.component_dirty.len() != n {
            return false;
        }
        assert(net.slots[0] == self.components@[0]@);
        if self.components[0].input.len() != self.info.outputs.len()
            || self.components[0].output.len() != self.info.inputs.len() {
            return false;
        }
        let mut i: usize = 1;
        while i < n
            invariant
                1 <= i <= n,
                n == self.components@.len(),
                net == self@,
                forall|j: int|
                    1 <= j < i ==> {
                        &&& (#[trigger] net.slots[j]).comp.wf()
                        &&& net.slots[j].input.len() == net.slots[j].comp.num_inputs()
                        &&& net.slots[j].output.len() == net.slots[j].comp.num_outputs()
                    },
            decreases n - i,
        {
            assert(net.slots[i as int] == self.components@[i as int]@);
            let slot = &self.components[i];
            if !slot.comp.is_valid() || slot.input.len() != slot.comp.num_inputs()
                || slot.output.len() != slot.comp.num_outputs() {
                return false;
            }
            i += 1;
        }
        let mut i: usize = 0;
        while i < n
            invariant
                i <= n,
                n == self.components@.len(),
                n == self.connections@.len(),
                net == self@,
                forall|j: int|
                    0 <= j < i ==> (#[trigger] net.connections[j]).len() == net.slots[j].output.len(),
                forall|j: int, o: int, k: int|
                    0 <= j < i && 0 <= o < net.connections[j].len() && 0 <= k
                        < net.connections[j][o].len() ==> net.valid_target(
                        #[trigger] net.connections[j][o][k],
                    ),
            decreases n - i,
        {
            assert(net.slots[i as int] == self.components@[i as int]@);
            assert(net.connections[i as int] == fanout_view(self.connections@[i as int]@));
            if self.connections[i].len() != self.components[i].output.len() {
                return false;
            }
            if !self.targets_valid(i) {
                return false;
            }
            i += 1;
        }
        true
    }
}

} // verus!
