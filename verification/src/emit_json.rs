//! The netlist of a network: its ports and cells, and a wire number for
//! every pin.

use crate::component::{
    fanout_view, ComponentIndex, Direction, Index, Network, PortNames,
};
use crate::names::numbered;
use vstd::string::*;
use crate::model::NetModel;
use vstd::prelude::*;

verus! {

/// How many pins the slot `c` has that take a value in, the boundary seen
/// from outside.
pub open spec fn spec_pins_in(net: NetModel, c: int) -> int {
    if c == 0 {
        net.slots[0].output.len() as int
    } else {
        net.slots[c].input.len() as int
    }
}

/// How many pins the slot `c` has that give a value out, the boundary seen
/// from outside.
pub open spec fn spec_pins_out(net: NetModel, c: int) -> int {
    if c == 0 {
        net.slots[0].input.len() as int
    } else {
        net.slots[c].output.len() as int
    }
}

/// The first wire number of the slot `c`: wire numbers start at 2, and the
/// slots take theirs in order.
pub open spec fn spec_first_wire(net: NetModel, c: nat) -> int
    decreases c,
{
    if c == 0 {
        2
    } else {
        spec_first_wire(net, (c - 1) as nat) + spec_pins_in(net, c - 1) + spec_pins_out(net, c - 1)
    }
}

/// The wire number that the pin has of its own: the slot's inputs take the
/// slot's first numbers, in order, and its outputs the next.
pub open spec fn spec_own_wire(net: NetModel, pin: ComponentIndex) -> int {
    match pin.direction {
        Direction::Input => spec_first_wire(net, pin.c_id as nat) + pin.port_id,
        Direction::Output => spec_first_wire(net, pin.c_id as nat) + spec_pins_in(
            net,
            pin.c_id as int,
        ) + pin.port_id,
    }
}

/// The last of the first `n` inputs of the network that feeds the pin `t`
/// directly.
pub open spec fn spec_feeder(fanout: Seq<Seq<Index>>, t: Index, n: nat) -> Option<int>
    decreases n,
{
    if n == 0 {
        None
    } else if fanout[n - 1].contains(t) {
        Some(n - 1)
    } else {
        spec_feeder(fanout, t, (n - 1) as nat)
    }
}

/// The pin that a value for `t` is delivered to, the boundary seen from
/// outside: an input of a slot, or an output of the network.
pub open spec fn spec_fed_pin(t: Index) -> ComponentIndex {
    if t.comp_id == 0 {
        ComponentIndex { c_id: 0, port_id: t.input_id, direction: Direction::Output }
    } else {
        ComponentIndex { c_id: t.comp_id, port_id: t.input_id, direction: Direction::Input }
    }
}

/// Whether `pin` is a pin that values are delivered to.
pub open spec fn spec_is_fed(pin: ComponentIndex) -> bool {
    if pin.c_id == 0 {
        pin.direction == Direction::Output
    } else {
        pin.direction == Direction::Input
    }
}

/// The wire number of the pin: that of the last input of the network that
/// feeds it directly, if there is one, and its own otherwise.
pub open spec fn spec_wire(net: NetModel, pin: ComponentIndex) -> int {
    let t = Index { comp_id: pin.c_id, input_id: pin.port_id };
    match spec_feeder(net.slots[0].connections, t, net.slots[0].connections.len()) {
        Some(i) => if spec_is_fed(pin) {
            2 + i
        } else {
            spec_own_wire(net, pin)
        },
        None => spec_own_wire(net, pin),
    }
}

/// Whether `pin` is a pin of the network, the boundary seen from outside.
pub open spec fn spec_has_pin(net: NetModel, pin: ComponentIndex) -> bool {
    pin.c_id < net.slots.len() && match pin.direction {
        Direction::Input => pin.port_id < spec_pins_in(net, pin.c_id as int),
        Direction::Output => pin.port_id < spec_pins_out(net, pin.c_id as int),
    }
}

/// The fan-out lists that the slots hold are those of the network, every
/// entry of one is a pin, and the wire numbers fit the machine.
pub open spec fn spec_drawable(net: NetModel) -> bool {
    &&& net.slots.len() >= 1
    &&& forall|c: int|
        0 <= c < net.slots.len() ==> (#[trigger] net.slots[c]).connections.len()
            == net.slots[c].output.len()
    &&& forall|c: int, o: int, k: int|
        0 <= c < net.slots.len() && 0 <= o < net.slots[c].connections.len() && 0 <= k
            < net.slots[c].connections[o].len() ==> net.valid_target(
            #[trigger] net.slots[c].connections[o][k],
        )
    &&& spec_first_wire(net, net.slots.len()) <= usize::MAX
}

/// The first wire numbers go up with the slots.
pub proof fn lemma_first_wire(net: NetModel, a: nat, b: nat)
    requires
        a <= b,
    ensures
        spec_first_wire(net, a) <= spec_first_wire(net, b),
        a < b ==> spec_first_wire(net, a) + spec_pins_in(net, a as int) + spec_pins_out(
            net,
            a as int,
        ) <= spec_first_wire(net, b),
    decreases b - a,
{
    if a < b {
        lemma_first_wire(net, a, (b - 1) as nat);
    }
}

/// Where the wire numbers fit the machine, so does the number of pins of
/// each slot, and the number of each input of the network.
pub proof fn lemma_pin_bounds(net: NetModel)
    requires
        net.slots.len() >= 1,
        spec_first_wire(net, net.slots.len()) <= usize::MAX,
    ensures
        forall|s: int|
            0 <= s < net.slots.len() ==> #[trigger] spec_pins_in(net, s) <= usize::MAX - 2
                && spec_pins_out(net, s) <= usize::MAX - 2,
{
    assert forall|s: int| 0 <= s < net.slots.len() implies #[trigger] spec_pins_in(net, s)
        <= usize::MAX - 2 && spec_pins_out(net, s) <= usize::MAX - 2 by {
        lemma_first_wire(net, 0, s as nat);
        lemma_first_wire(net, s as nat, net.slots.len());
    }
}

/// A wire number for every pin of a network.
pub struct PinAddresses {
    inputs: Vec<Vec<usize>>,
    outputs: Vec<Vec<usize>>,
}

impl PinAddresses {
    /// Whether there is a number for `pin`.
    pub closed spec fn has(self, pin: ComponentIndex) -> bool {
        match pin.direction {
            Direction::Input => pin.c_id < self.inputs@.len() && pin.port_id
                < self.inputs@[pin.c_id as int]@.len(),
            Direction::Output => pin.c_id < self.outputs@.len() && pin.port_id
                < self.outputs@[pin.c_id as int]@.len(),
        }
    }

    /// The number for `pin`.
    pub closed spec fn wire(self, pin: ComponentIndex) -> usize {
        match pin.direction {
            Direction::Input => self.inputs@[pin.c_id as int]@[pin.port_id as int],
            Direction::Output => self.outputs@[pin.c_id as int]@[pin.port_id as int],
        }
    }

    /// Whether this holds the wire numbers of `net`: a number for each pin,
    /// and the one that the pin has.
    pub open spec fn matches(self, net: NetModel) -> bool {
        forall|pin: ComponentIndex|
            #![trigger self.has(pin)]
            #![trigger self.wire(pin)]
            self.has(pin) == spec_has_pin(net, pin) && (self.has(pin) ==> self.wire(pin)
                == spec_wire(net, pin))
    }

    /// The wire number of `pin`, if it is a pin.
    pub fn get(&self, pin: ComponentIndex) -> (r: Option<usize>)
        ensures
            r is Some <==> self.has(pin),
            r is Some ==> r->0 == self.wire(pin),
    {
        match pin.direction {
            Direction::Input => {
                if pin.c_id < self.inputs.len() && pin.port_id < self.inputs[pin.c_id].len() {
                    Some(self.inputs[pin.c_id][pin.port_id])
                } else {
                    None
                }
            },
            Direction::Output => {
                if pin.c_id < self.outputs.len() && pin.port_id < self.outputs[pin.c_id].len() {
                    Some(self.outputs[pin.c_id][pin.port_id])
                } else {
                    None
                }
            },
        }
    }
}

/// How many pins the slot `c` of the network has that take a value in, and
/// how many that give one out, the boundary seen from outside.
fn pins(c: &Network, slot: usize) -> (r: (usize, usize))
    requires
        slot < c@.slots.len(),
    ensures
        r.0 == spec_pins_in(c@, slot as int),
        r.1 == spec_pins_out(c@, slot as int),
{
    assert(c@.slots[slot as int] == c.components@[slot as int]@);
    let n_in = c.components[slot].input().len();
    let n_out = c.components[slot].output().len();
    if slot == 0 {
        (n_out, n_in)
    } else {
        (n_in, n_out)
    }
}

/// The number after the last wire number of the network, if it fits the
/// machine.
pub fn wire_count(c: &Network) -> (r: Option<usize>)
    ensures
        r is Some <==> spec_first_wire(c@, c@.slots.len()) <= usize::MAX,
        r is Some ==> r->0 == spec_first_wire(c@, c@.slots.len()),
{
    let n = c.components.len();
    let mut ya: usize = 2;
    let mut slot: usize = 0;
    while slot < n
        invariant
            slot <= n,
            n == c@.slots.len(),
            ya == spec_first_wire(c@, slot as nat),
        decreases n - slot,
    {
        let (n_in, n_out) = pins(c, slot);
        proof {
            lemma_first_wire(c@, (slot + 1) as nat, n as nat);
        }
        if n_in > usize::MAX - ya {
            return None;
        }
        ya = ya + n_in;
        if n_out > usize::MAX - ya {
            return None;
        }
        ya = ya + n_out;
        slot += 1;
    }
    Some(ya)
}

/// The numbers from `first` on, `n` of them.
fn counting(first: usize, n: usize) -> (v: Vec<usize>)
    requires
        first + n <= usize::MAX,
    ensures
        v@.len() == n,
        forall|j: int| 0 <= j < n ==> #[trigger] v@[j] == first + j,
{
    let mut v: Vec<usize> = Vec::new();
    let mut j: usize = 0;
    while j < n
        invariant
            j <= n,
            first + n <= usize::MAX,
            v@.len() == j,
            forall|k: int| 0 <= k < j ==> #[trigger] v@[k] == first + k,
        decreases n - j,
    {
        v.push(first + j);
        j += 1;
    }
    v
}

/// The wire number of a pin once the first `i` inputs of the network and
/// the first `k` entries of the fan-out of the next have been taken into
/// account.
pub open spec fn spec_wire_so_far(net: NetModel, pin: ComponentIndex, i: nat, k: int) -> int {
    let t = Index { comp_id: pin.c_id, input_id: pin.port_id };
    let fanout = net.slots[0].connections;
    if !spec_is_fed(pin) {
        spec_own_wire(net, pin)
    } else if i < fanout.len() && fanout[i as int].take(k).contains(t) {
        (2 + i) as int
    } else {
        match spec_feeder(fanout, t, i) {
            Some(f) => 2 + f,
            None => spec_own_wire(net, pin),
        }
    }
}

/// A list with one more entry holds what it held, and the entry.
proof fn lemma_pushed_holds(s: Seq<Index>, x: Index, t: Index)
    ensures
        s.push(x).contains(t) <==> s.contains(t) || t == x,
{
    let u = s.push(x);
    if s.contains(t) {
        let a = choose|a: int| 0 <= a < s.len() && s[a] == t;
        assert(u[a] == t);
    }
    if t == x {
        assert(u[s.len() as int] == t);
    }
    if u.contains(t) {
        let a = choose|a: int| 0 <= a < u.len() && u[a] == t;
        if a < s.len() {
            assert(s[a] == t);
        }
    }
}

/// A wire number for every pin of the network. The pins are numbered from 2
/// on, slot by slot, the inputs of a slot before its outputs; then every pin
/// that an input of the network feeds directly takes the number of that
/// input.
pub fn yosys_addr_map(c: &Network) -> (r: PinAddresses)
    requires
        spec_drawable(c@),
    ensures
        r.matches(c@),
{
    let ghost net = c@;
    let n = c.components.len();
    let mut inputs: Vec<Vec<usize>> = Vec::new();
    let mut outputs: Vec<Vec<usize>> = Vec::new();
    let mut ya: usize = 2;
    let mut slot: usize = 0;
    while slot < n
        invariant
            slot <= n,
            n == net.slots.len(),
            net == c@,
            spec_first_wire(net, n as nat) <= usize::MAX,
            ya == spec_first_wire(net, slot as nat),
            inputs@.len() == slot,
            outputs@.len() == slot,
            forall|s: int| 0 <= s < slot ==> (#[trigger] inputs@[s])@.len() == spec_pins_in(net, s),
            forall|s: int| 0 <= s < slot ==> (#[trigger] outputs@[s])@.len() == spec_pins_out(net, s),
            forall|s: int, j: int|
                0 <= s < slot && 0 <= j < spec_pins_in(net, s) ==> (#[trigger] inputs@[s]@[j])
                    == spec_first_wire(net, s as nat) + j,
            forall|s: int, j: int|
                0 <= s < slot && 0 <= j < spec_pins_out(net, s) ==> (#[trigger] outputs@[s]@[j])
                    == spec_first_wire(net, s as nat) + spec_pins_in(net, s) + j,
        decreases n - slot,
    {
        let (n_in, n_out) = pins(c, slot);
        proof {
            lemma_first_wire(net, (slot + 1) as nat, n as nat);
        }
        inputs.push(counting(ya, n_in));
        outputs.push(counting(ya + n_in, n_out));
        ya = ya + n_in + n_out;
        slot += 1;
    }
    assert(net.slots[0] == c.components@[0]@);
    proof {
        lemma_pin_bounds(net);
        assert(spec_pins_in(net, 0) <= usize::MAX - 2);
    }
    let fanout = c.components[0].fanout();
    let ghost fv = net.slots[0].connections;
    let n_feed = fanout.len();
    let mut i: usize = 0;
    proof {
        assert forall|pin: ComponentIndex| spec_has_pin(net, pin) implies spec_wire_so_far(
            net,
            pin,
            0,
            0,
        ) == spec_own_wire(net, pin) by {
            assert(fv[0].take(0) =~= Seq::<Index>::empty());
        }
    }
    while i < n_feed
        invariant
            i <= n_feed,
            n == net.slots.len(),
            net == c@,
            spec_drawable(net),
            forall|s: int|
                0 <= s < n ==> #[trigger] spec_pins_in(net, s) <= usize::MAX - 2 && spec_pins_out(
                    net,
                    s,
                ) <= usize::MAX - 2,
            fv == net.slots[0].connections,
            fv == fanout_view(fanout@),
            n_feed == fv.len(),
            n_feed == spec_pins_in(net, 0),
            inputs@.len() == n,
            outputs@.len() == n,
            forall|s: int| 0 <= s < n ==> (#[trigger] inputs@[s])@.len() == spec_pins_in(net, s),
            forall|s: int| 0 <= s < n ==> (#[trigger] outputs@[s])@.len() == spec_pins_out(net, s),
            forall|s: int, j: int|
                0 <= s < n && 0 <= j < spec_pins_in(net, s) ==> (#[trigger] inputs@[s]@[j])
                    == spec_wire_so_far(
                    net,
                    ComponentIndex {
                        c_id: s as usize,
                        port_id: j as usize,
                        direction: Direction::Input,
                    },
                    i as nat,
                    0,
                ),
            forall|s: int, j: int|
                0 <= s < n && 0 <= j < spec_pins_out(net, s) ==> (#[trigger] outputs@[s]@[j])
                    == spec_wire_so_far(
                    net,
                    ComponentIndex {
                        c_id: s as usize,
                        port_id: j as usize,
                        direction: Direction::Output,
                    },
                    i as nat,
                    0,
                ),
        decreases n_feed - i,
    {
        let m = fanout[i].len();
        assert(fv[i as int] == fanout@[i as int]@);
        assert(fv[i as int].take(0) =~= Seq::<Index>::empty());
        assert(net.slots[0].connections.len() == net.slots[0].output.len());
        let mut k: usize = 0;
        while k < m
            invariant
                k <= m,
                i < n_feed,
                n == net.slots.len(),
                net == c@,
                spec_drawable(net),
                forall|s: int|
                    0 <= s < n ==> #[trigger] spec_pins_in(net, s) <= usize::MAX - 2 && spec_pins_out(
                        net,
                        s,
                    ) <= usize::MAX - 2,
                fv == net.slots[0].connections,
                fv == fanout_view(fanout@),
                n_feed == fv.len(),
                n_feed == spec_pins_in(net, 0),
                m == fv[i as int].len(),
                2 + i < usize::MAX,
                inputs@.len() == n,
                outputs@.len() == n,
                forall|s: int| 0 <= s < n ==> (#[trigger] inputs@[s])@.len() == spec_pins_in(net, s),
                forall|s: int|
                    0 <= s < n ==> (#[trigger] outputs@[s])@.len() == spec_pins_out(net, s),
                forall|s: int, j: int|
                    0 <= s < n && 0 <= j < spec_pins_in(net, s) ==> (#[trigger] inputs@[s]@[j])
                        == spec_wire_so_far(
                        net,
                        ComponentIndex {
                            c_id: s as usize,
                            port_id: j as usize,
                            direction: Direction::Input,
                        },
                        i as nat,
                        k as int,
                    ),
                forall|s: int, j: int|
                    0 <= s < n && 0 <= j < spec_pins_out(net, s) ==> (#[trigger] outputs@[s]@[j])
                        == spec_wire_so_far(
                        net,
                        ComponentIndex {
                            c_id: s as usize,
                            port_id: j as usize,
                            direction: Direction::Output,
                        },
                        i as nat,
                        k as int,
                    ),
            decreases m - k,
        {
            let x = fanout[i][k];
            assert(x == fv[i as int][k as int]);
            assert(net.valid_target(net.slots[0].connections[i as int][k as int]));
            let ghost before_in = inputs@;
            let ghost before_out = outputs@;
            let ghost row = fv[i as int];
            proof {
                assert(row.take(k + 1) =~= row.take(k as int).push(x));
                assert forall|t: Index| row.take(k + 1).contains(t) <==> (row.take(
                    k as int,
                ).contains(t) || t == x) by {
                    lemma_pushed_holds(row.take(k as int), x, t);
                }
            }
            if x.comp_id == 0 {
                outputs[0][x.input_id] = 2 + i;
            } else {
                inputs[x.comp_id][x.input_id] = 2 + i;
            }
            k += 1;
            proof {
                assert forall|s: int, j: int|
                    0 <= s < n && 0 <= j < spec_pins_in(net, s) implies (
                #[trigger] inputs@[s]@[j]) == spec_wire_so_far(
                    net,
                    ComponentIndex {
                        c_id: s as usize,
                        port_id: j as usize,
                        direction: Direction::Input,
                    },
                    i as nat,
                    k as int,
                ) by {
                    let t = Index { comp_id: s as usize, input_id: j as usize };
                    assert(before_in[s]@[j] == spec_wire_so_far(
                        net,
                        ComponentIndex {
                            c_id: s as usize,
                            port_id: j as usize,
                            direction: Direction::Input,
                        },
                        i as nat,
                        k - 1,
                    ));
                    if x.comp_id != 0 && s == x.comp_id && j == x.input_id {
                        assert(t == x);
                    } else {
                        assert(inputs@[s]@[j] == before_in[s]@[j]);
                        assert(s == 0 || t != x);
                    }
                }
                assert forall|s: int, j: int|
                    0 <= s < n && 0 <= j < spec_pins_out(net, s) implies (
                #[trigger] outputs@[s]@[j]) == spec_wire_so_far(
                    net,
                    ComponentIndex {
                        c_id: s as usize,
                        port_id: j as usize,
                        direction: Direction::Output,
                    },
                    i as nat,
                    k as int,
                ) by {
                    let t = Index { comp_id: s as usize, input_id: j as usize };
                    assert(before_out[s]@[j] == spec_wire_so_far(
                        net,
                        ComponentIndex {
                            c_id: s as usize,
                            port_id: j as usize,
                            direction: Direction::Output,
                        },
                        i as nat,
                        k - 1,
                    ));
                    if x.comp_id == 0 && s == 0 && j == x.input_id {
                        assert(t == x);
                    } else {
                        assert(outputs@[s]@[j] == before_out[s]@[j]);
                        assert(s != 0 || t != x);
                    }
                }
            }
        }
        i += 1;
        proof {
            assert(fv[i - 1].take(m as int) =~= fv[i - 1]);
            if i < n_feed {
                assert(fv[i as int].take(0) =~= Seq::<Index>::empty());
            }
        }
    }
    let r = PinAddresses { inputs, outputs };
    proof {
        assert forall|pin: ComponentIndex|
            #![trigger r.has(pin)]
            #![trigger r.wire(pin)]
            r.has(pin) == spec_has_pin(net, pin) && (r.has(pin) ==> r.wire(pin) == spec_wire(
                net,
                pin,
            )) by {
            if spec_has_pin(net, pin) {
                match pin.direction {
                    Direction::Input => {
                        assert(r.inputs@[pin.c_id as int]@[pin.port_id as int] == spec_wire_so_far(
                            net,
                            ComponentIndex {
                                c_id: pin.c_id as int as usize,
                                port_id: pin.port_id as int as usize,
                                direction: Direction::Input,
                            },
                            n_feed as nat,
                            0,
                        ));
                    },
                    Direction::Output => {
                        assert(r.outputs@[pin.c_id as int]@[pin.port_id as int]
                            == spec_wire_so_far(
                            net,
                            ComponentIndex {
                                c_id: pin.c_id as int as usize,
                                port_id: pin.port_id as int as usize,
                                direction: Direction::Output,
                            },
                            n_feed as nat,
                            0,
                        ));
                    },
                }
            }
        }
    }
    r
}

/// A port of a module: its direction and the numbers of its wires.
pub struct Port {
    pub direction: Direction,
    pub bits: Vec<usize>,
}

impl Port {
    /// An input port on the wire `n`.
    pub fn input(n: usize) -> (r: Port)
        ensures
            r.direction == Direction::Input,
            r.bits@ == seq![n],
    {
        Port { direction: Direction::Input, bits: vec![n] }
    }

    /// An output port on the wire `n`.
    pub fn output(n: usize) -> (r: Port)
        ensures
            r.direction == Direction::Output,
            r.bits@ == seq![n],
    {
        Port { direction: Direction::Output, bits: vec![n] }
    }
}

/// A named wire.
#[derive(Debug, Clone)]
pub struct Netname {
    pub hide_name: u8,
    pub bits: Vec<usize>,
}

impl Netname {
    pub fn new(n: usize) -> (r: Netname)
        ensures
            r.hide_name == 1,
            r.bits@ == seq![n],
    {
        Netname { hide_name: 1, bits: vec![n] }
    }
}

/// The input pin `i` of the slot `c_id`.
pub open spec fn spec_input_pin(c_id: usize, i: int) -> ComponentIndex {
    ComponentIndex { c_id, port_id: i as usize, direction: Direction::Input }
}

/// A cell of a module: an instance, with the direction of each of its
/// ports and the wires at each.
pub struct Cell {
    pub hide_name: u8,
    pub kind: String,
    pub port_directions: Vec<(String, Direction)>,
    pub connections: Vec<(String, Vec<usize>)>,
}

/// The wires at an output pin with the fan-out `targets`: the wire of each
/// pin that it feeds.
pub open spec fn spec_output_wires(addrs: PinAddresses, targets: Seq<Index>) -> Seq<usize> {
    Seq::new(targets.len(), |k: int| addrs.wire(spec_fed_pin(targets[k])))
}

impl Cell {
    /// The cell for the slot `c_id`: its inputs, each on its wire, then its
    /// outputs, each on the wires of the pins that it feeds.
    pub fn new(
        c_id: usize,
        name: String,
        n_in: usize,
        n_out: usize,
        connections: &Vec<Vec<Index>>,
        addrs: &PinAddresses,
        port_names: &PortNames,
    ) -> (r: Cell)
        requires
            n_in <= port_names.input@.len(),
            n_out <= port_names.output@.len(),
            n_out <= connections@.len(),
            forall|i: int|
                0 <= i < n_in ==> addrs.has(
                    spec_input_pin(c_id, i),
                ),
            forall|j: int, k: int|
                0 <= j < n_out && 0 <= k < connections@[j]@.len() ==> addrs.has(
                    spec_fed_pin(#[trigger] connections@[j]@[k]),
                ),
        ensures
            r.hide_name == 0,
            r.kind == name,
            r.connections@.len() == n_in + n_out,
            r.port_directions@.len() == n_in + n_out,
            forall|i: int| #![trigger r.connections@[i]] 0 <= i < n_in ==> r.connections@[i].0@ == port_names.input@[i]@ && r.connections@[i].1@ == seq![
                        addrs.wire(
                            spec_input_pin(c_id, i),
                        ),
                    ],
            forall|i: int| #![trigger r.port_directions@[i]] 0 <= i < n_in ==> r.port_directions@[i].0@ == port_names.input@[i]@ && r.port_directions@[i].1 == Direction::Input,
            forall|j: int| #![trigger r.connections@[n_in + j]] 0 <= j < n_out ==> r.connections@[n_in + j].0@ == port_names.output@[j]@ && r.connections@[n_in + j].1@ == spec_output_wires(*addrs, connections@[j]@),
            forall|j: int| #![trigger r.port_directions@[n_in + j]] 0 <= j < n_out ==> r.port_directions@[n_in + j].0@ == port_names.output@[j]@ && r.port_directions@[n_in + j].1 == Direction::Output,
    {
        let mut port_directions: Vec<(String, Direction)> = Vec::new();
        let mut yosys_connections: Vec<(String, Vec<usize>)> = Vec::new();
        let mut i: usize = 0;
        while i < n_in
            invariant
                i <= n_in,
                n_in <= port_names.input@.len(),
                yosys_connections@.len() == i,
                port_directions@.len() == i,
                forall|a: int|
                    0 <= a < n_in ==> addrs.has(
                        spec_input_pin(c_id, a),
                    ),
                forall|a: int| #![trigger yosys_connections@[a]] 0 <= a < i ==> yosys_connections@[a].0@ == port_names.input@[a]@ && yosys_connections@[a].1@ == seq![
                            addrs.wire(
                                spec_input_pin(c_id, a),
                            ),
                        ],
            forall|a: int| #![trigger port_directions@[a]] 0 <= a < i ==> port_directions@[a].0@ == port_names.input@[a]@ && port_directions@[a].1 == Direction::Input,
            decreases n_in - i,
        {
            let pin = ComponentIndex::input(c_id, i);
            assert(addrs.has(spec_input_pin(c_id, i as int)));
            let wire = match addrs.get(pin) {
                Some(w) => w,
                None => 0,
            };
            let bits = vec![wire];
            assert(bits@ =~= seq![wire]);
            assert(pin == spec_input_pin(c_id, i as int));
            let ghost before_c = yosys_connections@;
            let ghost before_d = port_directions@;
            port_directions.push((port_names.input[i].clone(), Direction::Input));
            yosys_connections.push((port_names.input[i].clone(), bits));
            proof {
                assert forall|a: int| #![trigger yosys_connections@[a]] #![trigger port_directions@[a]] 0 <= a < i + 1 implies yosys_connections@[a].0@ == port_names.input@[a]@ && yosys_connections@[a].1@ == seq![addrs.wire(spec_input_pin(c_id, a))] && port_directions@[a].0@ == port_names.input@[a]@ && port_directions@[a].1 == Direction::Input by {
                    if a < i {
                        assert(yosys_connections@[a] == before_c[a]);
                        assert(port_directions@[a] == before_d[a]);
                    }
                }
            }
            i += 1;
        }
        let mut j: usize = 0;
        while j < n_out
            invariant
                j <= n_out,
                n_out <= port_names.output@.len(),
                n_out <= connections@.len(),
                yosys_connections@.len() == n_in + j,
                port_directions@.len() == n_in + j,
                forall|a: int, k: int|
                    0 <= a < n_out && 0 <= k < connections@[a]@.len() ==> addrs.has(
                        spec_fed_pin(#[trigger] connections@[a]@[k]),
                    ),
                forall|a: int| #![trigger yosys_connections@[a]] 0 <= a < n_in ==> yosys_connections@[a].0@ == port_names.input@[a]@ && yosys_connections@[a].1@ == seq![
                            addrs.wire(
                                spec_input_pin(c_id, a),
                            ),
                        ],
            forall|a: int| #![trigger port_directions@[a]] 0 <= a < n_in ==> port_directions@[a].0@ == port_names.input@[a]@ && port_directions@[a].1 == Direction::Input,
                forall|a: int| #![trigger yosys_connections@[n_in + a]] 0 <= a < j ==> yosys_connections@[n_in + a].0@ == port_names.output@[a]@ && yosys_connections@[n_in + a].1@ == spec_output_wires(
                            *addrs,
                            connections@[a]@,
                        ),
            forall|a: int| #![trigger port_directions@[n_in + a]] 0 <= a < j ==> port_directions@[n_in + a].0@ == port_names.output@[a]@ && port_directions@[n_in + a].1 == Direction::Output,
            decreases n_out - j,
        {
            let mut wires: Vec<usize> = Vec::new();
            let targets = &connections[j];
            let mut k: usize = 0;
            while k < targets.len()
                invariant
                    k <= targets@.len(),
                    j < n_out,
                    targets@ == connections@[j as int]@,
                    forall|a: int, b: int|
                        0 <= a < n_out && 0 <= b < connections@[a]@.len() ==> addrs.has(
                            spec_fed_pin(#[trigger] connections@[a]@[b]),
                        ),
                    wires@.len() == k,
                    forall|b: int|
                        0 <= b < k ==> #[trigger] wires@[b] == addrs.wire(
                            spec_fed_pin(targets@[b]),
                        ),
                decreases targets@.len() - k,
            {
                let x = targets[k];
                let pin = if x.comp_id == 0 {
                    ComponentIndex::output(x.comp_id, x.input_id)
                } else {
                    ComponentIndex::input(x.comp_id, x.input_id)
                };
                assert(pin == spec_fed_pin(connections@[j as int]@[k as int]));
                let wire = match addrs.get(pin) {
                    Some(w) => w,
                    None => 0,
                };
                wires.push(wire);
                k += 1;
            }
            assert(wires@ =~= spec_output_wires(*addrs, connections@[j as int]@));
            let ghost before_c = yosys_connections@;
            let ghost before_d = port_directions@;
            port_directions.push((port_names.output[j].clone(), Direction::Output));
            yosys_connections.push((port_names.output[j].clone(), wires));
            proof {
                assert forall|a: int| #![trigger yosys_connections@[a]] #![trigger port_directions@[a]] 0 <= a < n_in implies yosys_connections@[a].0@ == port_names.input@[a]@ && yosys_connections@[a].1@ == seq![
                        addrs.wire(
                            spec_input_pin(c_id, a),
                        ),
                    ] && port_directions@[a].0@ == port_names.input@[a]@ && port_directions@[a].1 == Direction::Input by {
                    assert(yosys_connections@[a] == before_c[a]);
                    assert(port_directions@[a] == before_d[a]);
                }
                assert forall|a: int| #![trigger yosys_connections@[n_in + a]] #![trigger port_directions@[n_in + a]] 0 <= a < j + 1 implies yosys_connections@[n_in + a].0@ == port_names.output@[a]@ && yosys_connections@[n_in + a].1@ == spec_output_wires(
                        *addrs,
                        connections@[a]@,
                    ) && port_directions@[n_in + a].0@ == port_names.output@[a]@ && port_directions@[n_in + a].1 == Direction::Output by {
                    if a < j {
                        assert(yosys_connections@[n_in + a] == before_c[n_in + a]);
                        assert(port_directions@[n_in + a] == before_d[n_in + a]);
                    }
                }
            }
            j += 1;
        }
        Cell { hide_name: 0, kind: name, port_directions, connections: yosys_connections }
    }
}

/// A module: its ports, and its cells under their names.
pub struct Module {
    pub ports: Vec<(String, Port)>,
    pub cells: Vec<(String, Cell)>,
    pub netnames: Vec<(String, Netname)>,
}

/// The name of the cell for the slot `c_id` that holds a component called
/// `name`.
pub open spec fn spec_cell_name(name: Seq<char>, c_id: nat) -> Seq<char> {
    "$"@ + name + "$input.v:1$"@ + crate::names::spec_decimal(c_id)
}

/// The name of the cell for the slot `c_id` that holds a component called
/// `name`.
pub fn cell_name(name: &str, c_id: usize) -> (r: String)
    ensures
        r@ == spec_cell_name(name@, c_id as nat),
{
    let mut s = String::from_str("$");
    s.append(name);
    s.append("$input.v:1$");
    let r = numbered(s.as_str(), c_id);
    assert(r@ =~= spec_cell_name(name@, c_id as nat));
    r
}

/// Whether `r` is the module of the network `net`: its ports are the inputs
/// and then the outputs of the network, each under its name and on its
/// wire; its cells are the slots but the boundary, in order, each under its
/// name, of the kind of its component, with an entry for each of its pins;
/// and it names no wire.
pub open spec fn spec_is_module(net: NetModel, r: Module) -> bool {
    &&& r.ports@.len() == net.num_inputs() + net.num_outputs()
    &&& forall|i: int|
        0 <= i < net.num_inputs() ==> {
            &&& (#[trigger] r.ports@[i]).0@ == net.info.inputs[i]
            &&& r.ports@[i].1.direction == Direction::Input
            &&& r.ports@[i].1.bits@ == seq![
                spec_wire(
                    net,
                    ComponentIndex { c_id: 0, port_id: i as usize, direction: Direction::Input },
                ) as usize,
            ]
        }
    &&& forall|i: int|
        0 <= i < net.num_outputs() ==> {
            &&& (#[trigger] r.ports@[net.num_inputs() + i]).0@ == net.info.outputs[i]
            &&& r.ports@[net.num_inputs() + i].1.direction == Direction::Output
            &&& r.ports@[net.num_inputs() + i].1.bits@ == seq![
                spec_wire(
                    net,
                    ComponentIndex { c_id: 0, port_id: i as usize, direction: Direction::Output },
                ) as usize,
            ]
        }
    &&& r.cells@.len() == net.slots.len() - 1
    &&& forall|s: int|
        1 <= s < net.slots.len() ==> {
            &&& (#[trigger] r.cells@[s - 1]).0@ == spec_cell_name(net.slots[s].comp.name(), s as nat)
            &&& r.cells@[s - 1].1.kind@ == net.slots[s].comp.name()
            &&& spec_is_cell(net, s, r.cells@[s - 1].1)
        }
    &&& r.netnames@.len() == 0
}

/// The wires of the pins that the targets stand for.
pub open spec fn spec_fed_wires(net: NetModel, targets: Seq<Index>) -> Seq<usize> {
    Seq::new(targets.len(), |k: int| spec_wire(net, spec_fed_pin(targets[k])) as usize)
}

/// Whether `cell` is the cell of the slot `s` of the network: it is of the
/// kind of the slot's component; it has an entry for each input of the
/// slot, under the name of the input and on its wire, and then one for each
/// output, under the name of the output and on the wires of the pins that
/// the output feeds; and it gives the direction of each.
pub open spec fn spec_is_cell(net: NetModel, s: int, cell: Cell) -> bool {
    let slot = net.slots[s];
    let n_in = slot.input.len() as int;
    &&& cell.hide_name == 0
    &&& cell.kind@ == slot.comp.name()
    &&& cell.connections@.len() == n_in + slot.output.len()
    &&& cell.port_directions@.len() == n_in + slot.output.len()
    &&& forall|i: int|
        #![trigger cell.connections@[i]]
        0 <= i < n_in ==> cell.connections@[i].0@ == slot.comp.input_names()[i]
            && cell.connections@[i].1@ == seq![
            spec_wire(net, spec_input_pin(s as usize, i)) as usize,
        ]
    &&& forall|i: int|
        #![trigger cell.port_directions@[i]]
        0 <= i < n_in ==> cell.port_directions@[i].0@ == slot.comp.input_names()[i]
            && cell.port_directions@[i].1 == Direction::Input
    &&& forall|j: int|
        #![trigger cell.connections@[n_in + j]]
        0 <= j < slot.output.len() ==> cell.connections@[n_in + j].0@
            == slot.comp.output_names()[j] && cell.connections@[n_in + j].1@ == spec_fed_wires(
            net,
            slot.connections[j],
        )
    &&& forall|j: int|
        #![trigger cell.port_directions@[n_in + j]]
        0 <= j < slot.output.len() ==> cell.port_directions@[n_in + j].0@
            == slot.comp.output_names()[j] && cell.port_directions@[n_in + j].1
            == Direction::Output
}

impl Module {
    /// The module of the network: a port for each input and each output,
    /// in order, on its wire, and a cell for each slot but the boundary.
    pub fn from_structural(c: &Network) -> (r: Module)
        requires
            c@.wf(),
            spec_drawable(c@),
        ensures
            spec_is_module(c@, r),
    {
        let ghost net = c@;
        let addrs = yosys_addr_map(c);
        let names = c.port_names();
        let num_inputs = c.num_inputs();
        let num_outputs = c.num_outputs();
        let n = c.components.len();
        let mut ports: Vec<(String, Port)> = Vec::new();
        proof {
            lemma_pin_bounds(net);
        }
        let mut i: usize = 0;
        while i < num_inputs
            invariant
                i <= num_inputs,
                net == c@,
                net.wf(),
                addrs.matches(net),
                num_inputs == net.num_inputs(),
                names.spec_input() == net.info.inputs,
                ports@.len() == i,
                forall|a: int|
                    0 <= a < i ==> {
                        &&& (#[trigger] ports@[a]).0@ == net.info.inputs[a]
                        &&& ports@[a].1.direction == Direction::Input
                        &&& ports@[a].1.bits@ == seq![
                            spec_wire(
                                net,
                                ComponentIndex {
                                    c_id: 0,
                                    port_id: a as usize,
                                    direction: Direction::Input,
                                },
                            ) as usize,
                        ]
                    },
            decreases num_inputs - i,
        {
            let pin = ComponentIndex::input(0, i);
            assert(spec_has_pin(net, pin));
            assert(addrs.has(pin));
            let wire = match addrs.get(pin) {
                Some(w) => w,
                None => 0,
            };
            assert(names.spec_input()[i as int] == names.input@[i as int]@);
            ports.push((names.input[i].clone(), Port::input(wire)));
            i += 1;
        }
        let mut i: usize = 0;
        while i < num_outputs
            invariant
                i <= num_outputs,
                net == c@,
                net.wf(),
                addrs.matches(net),
                num_inputs == net.num_inputs(),
                num_outputs == net.num_outputs(),
                names.spec_output() == net.info.outputs,
                ports@.len() == num_inputs + i,
                forall|a: int|
                    0 <= a < num_inputs ==> {
                        &&& (#[trigger] ports@[a]).0@ == net.info.inputs[a]
                        &&& ports@[a].1.direction == Direction::Input
                        &&& ports@[a].1.bits@ == seq![
                            spec_wire(
                                net,
                                ComponentIndex {
                                    c_id: 0,
                                    port_id: a as usize,
                                    direction: Direction::Input,
                                },
                            ) as usize,
                        ]
                    },
                forall|a: int|
                    0 <= a < i ==> {
                        &&& (#[trigger] ports@[num_inputs + a]).0@ == net.info.outputs[a]
                        &&& ports@[num_inputs + a].1.direction == Direction::Output
                        &&& ports@[num_inputs + a].1.bits@ == seq![
                            spec_wire(
                                net,
                                ComponentIndex {
                                    c_id: 0,
                                    port_id: a as usize,
                                    direction: Direction::Output,
                                },
                            ) as usize,
                        ]
                    },
            decreases num_outputs - i,
        {
            let pin = ComponentIndex::output(0, i);
            assert(spec_has_pin(net, pin));
            assert(addrs.has(pin));
            let wire = match addrs.get(pin) {
                Some(w) => w,
                None => 0,
            };
            assert(names.spec_output()[i as int] == names.output@[i as int]@);
            let ghost before = ports@;
            ports.push((names.output[i].clone(), Port::output(wire)));
            proof {
                assert forall|a: int| 0 <= a < num_inputs implies {
                    &&& (#[trigger] ports@[a]).0@ == net.info.inputs[a]
                    &&& ports@[a].1.direction == Direction::Input
                    &&& ports@[a].1.bits@ == seq![
                        spec_wire(
                            net,
                            ComponentIndex {
                                c_id: 0,
                                port_id: a as usize,
                                direction: Direction::Input,
                            },
                        ) as usize,
                    ]
                } by {
                    assert(ports@[a] == before[a]);
                }
                assert forall|a: int| 0 <= a < i + 1 implies {
                    &&& (#[trigger] ports@[num_inputs + a]).0@ == net.info.outputs[a]
                    &&& ports@[num_inputs + a].1.direction == Direction::Output
                    &&& ports@[num_inputs + a].1.bits@ == seq![
                        spec_wire(
                            net,
                            ComponentIndex {
                                c_id: 0,
                                port_id: a as usize,
                                direction: Direction::Output,
                            },
                        ) as usize,
                    ]
                } by {
                    if a < i {
                        assert(ports@[num_inputs + a] == before[num_inputs + a]);
                    }
                }
            }
            i += 1;
        }
        let mut cells: Vec<(String, Cell)> = Vec::new();
        let mut s: usize = 1;
        while s < n
            invariant
                1 <= s <= n,
                n == net.slots.len(),
                net == c@,
                net.wf(),
                spec_drawable(net),
                addrs.matches(net),
                forall|a: int|
                    0 <= a < n ==> #[trigger] spec_pins_in(net, a) <= usize::MAX - 2
                        && spec_pins_out(net, a) <= usize::MAX - 2,
                cells@.len() == s - 1,
                forall|a: int|
                    1 <= a < s ==> {
                        &&& (#[trigger] cells@[a - 1]).0@ == spec_cell_name(
                            net.slots[a].comp.name(),
                            a as nat,
                        )
                        &&& spec_is_cell(net, a, cells@[a - 1].1)
                    },
            decreases n - s,
        {
            assert(net.slots[s as int] == c.components@[s as int]@);
            let slot = &c.components[s];
            let comp = slot.component();
            let n_in = comp.num_inputs();
            let n_out = comp.num_outputs();
            let port_names = comp.port_names();
            let fanout = slot.fanout();
            proof {
                assert(net.slots[s as int].comp.wf());
                assert(n_in == net.slots[s as int].input.len());
                assert(n_out == net.slots[s as int].output.len());
                assert(spec_pins_in(net, s as int) == n_in);
                lemma_port_name_counts(net.slots[s as int].comp);
                assert(port_names.spec_input().len() == port_names.input@.len());
                assert(port_names.spec_output().len() == port_names.output@.len());
                assert forall|a: int| 0 <= a < n_in implies addrs.has(
                    spec_input_pin(s, a),
                ) by {
                    assert(spec_has_pin(
                        net,
                        spec_input_pin(s, a),
                    ));
                }
                assert forall|j: int, k: int|
                    0 <= j < n_out && 0 <= k < fanout@[j]@.len() implies addrs.has(
                    spec_fed_pin(#[trigger] fanout@[j]@[k]),
                ) by {
                    let x = net.slots[s as int].connections[j][k];
                    assert(x == fanout@[j]@[k]);
                    assert(net.valid_target(x));
                    assert(spec_has_pin(net, spec_fed_pin(x)));
                }
            }
            let cell = Cell::new(
                s,
                String::from_str(comp.name()),
                n_in,
                n_out,
                fanout,
                &addrs,
                &port_names,
            );
            proof {
                let sm = net.slots[s as int];
                assert(sm.connections == fanout_view(fanout@));
                assert forall|i: int| #![trigger cell.connections@[i]] 0 <= i < n_in implies cell.connections@[i].0@
                    == sm.comp.input_names()[i] && cell.connections@[i].1@ == seq![
                    spec_wire(net, spec_input_pin(s, i)) as usize,
                ] by {
                    assert(port_names.spec_input()[i] == port_names.input@[i]@);
                    assert(addrs.has(spec_input_pin(s, i)));
                }
                assert forall|i: int| #![trigger cell.port_directions@[i]] 0 <= i < n_in implies cell.port_directions@[i].0@
                    == sm.comp.input_names()[i] && cell.port_directions@[i].1
                    == Direction::Input by {
                    assert(port_names.spec_input()[i] == port_names.input@[i]@);
                }
                assert forall|j: int| #![trigger cell.connections@[n_in + j]] 0 <= j < n_out implies cell.connections@[n_in
                    + j].0@ == sm.comp.output_names()[j] && cell.connections@[n_in + j].1@
                    == spec_fed_wires(net, sm.connections[j]) by {
                    assert(port_names.spec_output()[j] == port_names.output@[j]@);
                    assert(sm.connections[j] == fanout@[j]@);
                    assert(spec_output_wires(addrs, fanout@[j]@) =~= spec_fed_wires(
                        net,
                        sm.connections[j],
                    )) by {
                        assert forall|k: int| 0 <= k < fanout@[j]@.len() implies addrs.wire(
                            spec_fed_pin(fanout@[j]@[k]),
                        ) == spec_wire(net, spec_fed_pin(fanout@[j]@[k])) as usize by {
                            assert(addrs.has(spec_fed_pin(fanout@[j]@[k])));
                        }
                    }
                }
                assert forall|j: int| #![trigger cell.port_directions@[n_in + j]] 0 <= j < n_out implies cell.port_directions@[n_in
                    + j].0@ == sm.comp.output_names()[j] && cell.port_directions@[n_in + j].1
                    == Direction::Output by {
                    assert(port_names.spec_output()[j] == port_names.output@[j]@);
                }
                assert(spec_is_cell(net, s as int, cell));
            }
            let ghost before = cells@;
            cells.push((cell_name(comp.name(), s), cell));
            proof {
                assert forall|a: int| 1 <= a < s + 1 implies {
                    &&& (#[trigger] cells@[a - 1]).0@ == spec_cell_name(
                        net.slots[a].comp.name(),
                        a as nat,
                    )
                    &&& spec_is_cell(net, a, cells@[a - 1].1)
                } by {
                    if a < s {
                        assert(cells@[a - 1] == before[a - 1]);
                    }
                }
            }
            s += 1;
        }
        Module { ports, cells, netnames: Vec::new() }
    }
}

/// A component that is in order has a name for each port.
pub proof fn lemma_port_name_counts(comp: crate::model::ComponentModel)
    requires
        comp.wf(),
    ensures
        comp.input_names().len() == comp.num_inputs(),
        comp.output_names().len() == comp.num_outputs(),
{
}

/// A netlist: the modules under their names.
pub struct YosysJson {
    pub creator: String,
    pub modules: Vec<(String, Module)>,
}

/// The netlist of the network: one module, under the name of the network.
/// There is none where the wire numbers do not fit the machine.
pub fn from_structural(c: &Network) -> (r: Option<YosysJson>)
    requires
        c@.wf(),
        forall|s: int|
            0 <= s < c@.slots.len() ==> (#[trigger] c@.slots[s]).connections == c@.connections[s],
    ensures
        r is Some <==> spec_first_wire(c@, c@.slots.len()) <= usize::MAX,
        r is Some ==> r->0.creator@ == "comphdl 0.3"@ && r->0.modules@.len() == 1
            && r->0.modules@[0].0@ == c@.info.name && spec_is_module(c@, r->0.modules@[0].1),
{
    match wire_count(c) {
        None => None,
        Some(_) => {
            proof {
                let net = c@;
                assert forall|s: int, o: int, k: int|
                    0 <= s < net.slots.len() && 0 <= o < net.slots[s].connections.len() && 0 <= k
                        < net.slots[s].connections[o].len() implies net.valid_target(
                    #[trigger] net.slots[s].connections[o][k],
                ) by {
                    assert(net.valid_target(net.connections[s][o][k]));
                }
                assert forall|s: int| 0 <= s < net.slots.len() implies (
                #[trigger] net.slots[s]).connections.len() == net.slots[s].output.len() by {
                    assert(net.connections[s].len() == net.slots[s].output.len());
                }
            }
            let module = Module::from_structural(c);
            let mut modules: Vec<(String, Module)> = Vec::new();
            modules.push((String::from_str(c.name()), module));
            Some(YosysJson { creator: String::from_str("comphdl 0.3"), modules })
        },
    }
}

} // verus!
