use comphdl::bit::Bit;
use comphdl::bit::Bit::{H, L, X};
use comphdl::component::{
    CompIo, Component, ConstantBit, Index, InstanceIndex, Nand, Network, PortNames, Stdin, Stdout,
};
use comphdl::factory::ComponentFactory;
use comphdl::info::CompInfo;
use comphdl::stream::{RcBufRead, RcWrite, ReadOutcome};
use std::cell::RefCell;
use std::io::Cursor;
use std::rc::Rc;

fn names(v: &[&str]) -> Vec<String> {
    v.iter().map(|s| s.to_string()).collect()
}

fn info(name: &str, ins: &[&str], outs: &[&str]) -> CompInfo {
    CompInfo::new(name.to_string(), names(ins), names(outs))
}

fn assign(left: &[&str], right: &[&str]) -> CompInfo {
    info("actually, I'm just an assignment", left, right)
}

fn or2() -> (CompInfo, Vec<CompInfo>) {
    (
        info("Or2", &["a", "b"], &["x"]),
        vec![
            info("Nand", &["a"], &["n_a"]),
            info("Nand", &["b"], &["n_b"]),
            info("Nand", &["n_a", "n_b"], &["x"]),
        ],
    )
}

fn all_vectors(n: usize) -> Vec<Vec<Bit>> {
    let mut out = vec![vec![]];
    for _ in 0..n {
        let mut next = vec![];
        for v in &out {
            for b in [L, H, X] {
                let mut w = v.clone();
                w.push(b);
                next.push(w);
            }
        }
        out = next;
    }
    out
}

#[test]
fn nand_truth_table() {
    for n in 0..5 {
        let mut gate = Nand::new(n);
        assert_eq!(gate.num_inputs(), n);
        for v in all_vectors(n) {
            let out = gate.update(&v);
            assert_eq!(out.len(), 1);
            let any_low = v.contains(&L);
            let any_unknown = v.contains(&X);
            assert_eq!(out[0] == H, any_low);
            assert_eq!(out[0] == L, v.iter().all(|b| *b == H));
            assert_eq!(out[0] == X, !any_low && any_unknown);
        }
    }
}

#[test]
fn nand_examples() {
    let mut gate = Nand::new(2);
    assert_eq!(gate.update(&[L, L]), vec![H]);
    assert_eq!(gate.update(&[L, X]), vec![H]);
    assert_eq!(gate.update(&[X, H]), vec![X]);
    assert_eq!(gate.update(&[H, H]), vec![L]);
    assert_eq!(Nand::new(0).update(&[]), vec![L]);
}

#[test]
fn constant_source_emits_low_high_unknown() {
    let mut c = ConstantBit::new();
    assert_eq!(c.update(&[]), vec![L, H, X]);
    assert_eq!(c.update(&[]), vec![L, H, X]);
    let c = Component::ConstantBit(c);
    assert_eq!(c.num_inputs(), 0);
    assert_eq!(c.num_outputs(), 3);
    assert_eq!(c.port_names().output, names(&["o0", "o1", "oX"]));
}

#[test]
fn primitives_report_their_ports() {
    let nand = Component::Nand(Nand::new(3));
    assert_eq!((nand.num_inputs(), nand.num_outputs()), (3, 1));
    assert_eq!(nand.name(), "Nand");
    assert_eq!(nand.port_names().input, names(&["i0", "i1", "i2"]));
    assert_eq!(nand.port_names().output, names(&["o0"]));
    assert!(!nand.needs_update());
    let stdin = Component::Stdin(Stdin::new());
    assert_eq!((stdin.num_inputs(), stdin.num_outputs()), (1, 9));
    assert_eq!(stdin.name(), "Stdin");
    assert_eq!(stdin.port_names().input, names(&["clk"]));
    assert_eq!(
        stdin.port_names().output,
        names(&["EOF", "x7", "x6", "x5", "x4", "x3", "x2", "x1", "x0"])
    );
    assert!(!stdin.needs_update());
    let stdout = Component::Stdout(Stdout::new());
    assert_eq!((stdout.num_inputs(), stdout.num_outputs()), (9, 0));
    assert_eq!(stdout.name(), "Stdout");
    assert_eq!(
        stdout.port_names().input,
        names(&["clk", "x7", "x6", "x5", "x4", "x3", "x2", "x1", "x0"])
    );
    assert!(stdout.port_names().output.is_empty());
    assert!(stdin.as_structural().is_none());
    assert!(stdin.internal_inputs().is_none());
}

#[test]
fn default_port_names_are_numbered() {
    let p = PortNames::default(12, 2);
    assert_eq!(p.input.len(), 12);
    assert_eq!(p.input[0], "i0");
    assert_eq!(p.input[9], "i9");
    assert_eq!(p.input[10], "i10");
    assert_eq!(p.input[11], "i11");
    assert_eq!(p.output, names(&["o0", "o1"]));
    let q = PortNames::new(&["a", "b"], &["x"]);
    assert_eq!(q.input, names(&["a", "b"]));
    assert_eq!(q.output, names(&["x"]));
    let r = PortNames::new_vec(names(&["a"]), names(&[]));
    assert_eq!(r.input, names(&["a"]));
    assert!(r.output.is_empty());
}

#[test]
fn index_types_hold_what_they_are_given() {
    let i = Index::new(3, 4);
    assert_eq!((i.comp_id, i.input_id), (3, 4));
    let v = InstanceIndex::new(5, 6);
    assert_eq!((v.instance(), v.port()), (5, 6));
}

#[test]
fn or2_settles_in_two_ticks() {
    let cf = ComponentFactory::new(vec![or2()]).unwrap();
    let mut c = cf.create_named("Or2").unwrap();
    assert_eq!(c.num_inputs(), 2);
    assert_eq!(c.num_outputs(), 1);
    // From the unknown state: the first tick updates the two first-level
    // gates, the second updates the last gate and delivers its output.
    assert_eq!(c.update(&[L, L]), vec![X]);
    assert_eq!(c.update(&[L, L]), vec![L]);
    assert_eq!(c.update(&[L, L]), vec![L]);
    // After a flip of one input the old output is seen for one more tick.
    assert_eq!(c.update(&[H, L]), vec![L]);
    assert_eq!(c.update(&[H, L]), vec![H]);
    assert_eq!(c.update(&[H, L]), vec![H]);
    assert_eq!(c.update(&[L, L]), vec![H]);
    assert_eq!(c.update(&[L, L]), vec![L]);
    assert_eq!(c.update(&[L, H]), vec![L]);
    assert_eq!(c.update(&[L, H]), vec![H]);
    assert_eq!(c.update(&[H, H]), vec![H]);
    assert_eq!(c.update(&[H, H]), vec![H]);
}

#[test]
fn or2_truth_table_when_settled() {
    let cf = ComponentFactory::new(vec![or2()]).unwrap();
    for (a, b, x) in [(L, L, L), (L, H, H), (H, L, H), (H, H, H), (H, X, H), (X, L, X), (X, X, X)] {
        let mut c = cf.create_named("Or2").unwrap();
        let mut out = vec![];
        for _ in 0..4 {
            out = c.update(&[a, b]);
        }
        assert_eq!(out, vec![x]);
    }
}

#[test]
fn a_chain_of_gates_takes_one_tick_per_gate() {
    let k = 5;
    let mut body = vec![];
    for i in 0..k {
        let from = if i == 0 { "a".to_string() } else { format!("s{}", i) };
        let to = if i == k - 1 { "x".to_string() } else { format!("s{}", i + 1) };
        body.push(CompInfo::new("Nand".to_string(), vec![from], vec![to]));
    }
    let cf = ComponentFactory::new(vec![(info("Chain", &["a"], &["x"]), body)]).unwrap();
    let mut c = cf.create_named("Chain").unwrap();
    for _ in 0..k + 2 {
        c.update(&[L]);
    }
    assert_eq!(c.update(&[L]), vec![H]);
    // the change of the input is seen at the output at tick k and not before
    for _ in 0..k - 1 {
        assert_eq!(c.update(&[H]), vec![H]);
    }
    assert_eq!(c.update(&[H]), vec![L]);
    assert_eq!(c.update(&[H]), vec![L]);
}

#[test]
fn unchanged_input_leaves_a_settled_network_alone() {
    let cf = ComponentFactory::new(vec![or2()]).unwrap();
    let mut c = cf.create_named("Or2").unwrap();
    for _ in 0..3 {
        c.update(&[H, L]);
    }
    let state = |c: &Component| {
        let n = c.as_structural().unwrap();
        (
            c.internal_inputs().unwrap(),
            n.components.iter().map(|s| s.output().clone()).collect::<Vec<_>>(),
            n.component_dirty[1..].to_vec(),
        )
    };
    let before = state(&c);
    assert_eq!(before.2, vec![false, false, false]);
    let first = c.update(&[H, L]);
    let after_first = state(&c);
    let second = c.update(&[H, L]);
    let after_second = state(&c);
    assert_eq!(first, vec![H]);
    assert_eq!(first, second);
    assert_eq!(before, after_first);
    assert_eq!(after_first, after_second);
}

#[test]
fn array_ports_behave_like_separate_ports() {
    let make = |ins: [&str; 4], outs: [&str; 4]| {
        ComponentFactory::new(vec![(
            info("Swap", &ins, &outs),
            vec![
                info("Nand", &[ins[3]], &[outs[0]]),
                info("Nand", &[ins[2], ins[1]], &[outs[1]]),
                assign(&[outs[2]], &[ins[0]]),
                info("Nand", &ins, &[outs[3]]),
            ],
        )])
        .unwrap()
        .create_named("Swap")
        .unwrap()
    };
    let mut with_array = make(["a$3", "a$2", "a$1", "a$0"], ["b$3", "b$2", "b$1", "b$0"]);
    let mut with_bits = make(["a3", "a2", "a1", "a0"], ["b3", "b2", "b1", "b0"]);
    assert_eq!(with_array.num_inputs(), with_bits.num_inputs());
    assert_eq!(with_array.num_outputs(), with_bits.num_outputs());
    for v in all_vectors(4) {
        for _ in 0..3 {
            assert_eq!(with_array.update(&v), with_bits.update(&v));
        }
    }
    for _ in 0..3 {
        assert_eq!(with_array.update(&[H, L, H, L]), with_bits.update(&[H, L, H, L]));
    }
    assert_eq!(with_array.update(&[H, L, H, L]), vec![H, H, H, H]);
    for _ in 0..3 {
        assert_eq!(with_array.update(&[L, H, H, H]), with_bits.update(&[L, H, H, H]));
    }
    assert_eq!(with_array.update(&[L, H, H, H]), vec![L, L, L, H]);
}

fn reader(bytes: &[u8]) -> RcBufRead {
    RcBufRead(Rc::new(RefCell::new(Cursor::new(bytes.to_vec()))))
}

#[test]
fn input_bridge_samples_one_byte_per_rising_edge() {
    let data = b"Hi!";
    let mut bridge = Stdin::with_bufread(reader(data));
    let unknown = vec![X; 9];
    // the clock starts low: nothing is read
    assert_eq!(bridge.update(&[L]), unknown);
    let mut ticks = 1;
    for byte in data {
        let mut expected = vec![L];
        expected.extend(Bit::from_u8(*byte));
        assert_eq!(bridge.update(&[H]), expected);
        // between edges the outputs are held
        assert_eq!(bridge.update(&[L]), expected);
        ticks += 2;
    }
    let mut end = vec![H];
    end.extend(vec![X; 8]);
    assert_eq!(bridge.update(&[H]), end);
    ticks += 1;
    assert_eq!(ticks, 2 * data.len() + 2);
    for _ in 0..3 {
        assert_eq!(bridge.update(&[L]), end);
        assert_eq!(bridge.update(&[H]), end);
    }
}

#[test]
fn input_bridge_needs_a_low_clock_before_the_edge() {
    let mut bridge = Stdin::with_bufread(reader(b"A"));
    // from the unknown clock a high clock is no rising edge
    assert_eq!(bridge.update(&[H]), vec![X; 9]);
    assert_eq!(bridge.update(&[X]), vec![X; 9]);
    assert_eq!(bridge.update(&[H]), vec![X; 9]);
    assert_eq!(bridge.update(&[L]), vec![X; 9]);
    let mut expected = vec![L];
    expected.extend(Bit::from_u8(b'A'));
    assert_eq!(bridge.update(&[H]), expected);
}

#[test]
fn advance_applies_each_outcome() {
    let mut bridge = Stdin::new();
    assert!(!bridge.rising(H));
    assert_eq!(bridge.advance(L, ReadOutcome::Byte(7)), vec![X; 9]);
    assert!(bridge.rising(H));
    assert!(!bridge.rising(L));
    let mut seven = vec![L];
    seven.extend(Bit::from_u8(7));
    assert_eq!(bridge.advance(H, ReadOutcome::Byte(7)), seven);
    assert_eq!(bridge.advance(L, ReadOutcome::End), seven);
    let mut busy = vec![L];
    busy.extend(vec![X; 8]);
    assert_eq!(bridge.advance(H, ReadOutcome::Busy), busy);
    bridge.advance(L, ReadOutcome::Busy);
    let mut end = vec![H];
    end.extend(vec![X; 8]);
    assert_eq!(bridge.advance(H, ReadOutcome::End), end);
}

#[test]
fn a_busy_source_degrades_to_unknown() {
    let shared = Rc::new(RefCell::new(Cursor::new(b"AB".to_vec())));
    let mut bridge = Stdin::with_bufread(RcBufRead(shared.clone()));
    bridge.update(&[L]);
    let mut busy = vec![L];
    busy.extend(vec![X; 8]);
    {
        let _held = shared.borrow_mut();
        assert_eq!(bridge.update(&[H]), busy);
    }
    bridge.update(&[L]);
    let mut a = vec![L];
    a.extend(Bit::from_u8(b'A'));
    assert_eq!(bridge.update(&[H]), a);
}

#[test]
fn output_bridge_writes_on_rising_edges_only() {
    let sink = Rc::new(RefCell::new(Cursor::new(Vec::<u8>::new())));
    let mut bridge = Stdout::with_bufwrite(RcWrite(sink.clone()));
    let frame = |clk: Bit, byte: u8| {
        let mut v = vec![clk];
        v.extend(Bit::from_u8(byte));
        v
    };
    assert_eq!(bridge.pending(&frame(H, b'a')), None);
    assert_eq!(bridge.update(&frame(H, b'a')), vec![]);
    assert_eq!(bridge.update(&frame(L, b'b')), vec![]);
    assert_eq!(bridge.pending(&frame(H, b'c')), Some(b'c'));
    assert_eq!(bridge.update(&frame(H, b'c')), vec![]);
    assert_eq!(bridge.update(&frame(H, b'd')), vec![]);
    assert_eq!(bridge.update(&frame(L, b'e')), vec![]);
    assert_eq!(bridge.update(&frame(H, b'f')), vec![]);
    assert_eq!(sink.borrow().get_ref(), &b"cf".to_vec());
}

#[test]
fn instances_of_one_definition_do_not_share_state() {
    let cf = ComponentFactory::new(vec![
        or2(),
        (
            info("Pair", &["a", "b", "c", "d"], &["x", "y"]),
            vec![info("Or2", &["a", "b"], &["x"]), info("Or2", &["c", "d"], &["y"])],
        ),
    ])
    .unwrap();
    let mut pair = cf.create_named("Pair").unwrap();
    let mut alone = cf.create_named("Or2").unwrap();
    // drive the first instance only: the second behaves like an instance
    // that was never touched
    let mut out = vec![];
    for _ in 0..6 {
        out = pair.update(&[H, L, X, X]);
        alone.update(&[X, X]);
    }
    assert_eq!(out, vec![H, X]);
    let net = pair.as_structural().unwrap();
    let second = net.components[2].comp.as_structural().unwrap();
    let first = net.components[1].comp.as_structural().unwrap();
    let reference = alone.as_structural().unwrap();
    assert_eq!(second.internal_inputs(), reference.internal_inputs());
    assert_ne!(first.internal_inputs(), reference.internal_inputs());
    // and the other way round
    for _ in 0..6 {
        out = pair.update(&[H, L, L, L]);
    }
    assert_eq!(out, vec![H, L]);
}

#[test]
fn a_copy_runs_on_its_own() {
    let cf = ComponentFactory::new(vec![or2()]).unwrap();
    let mut a = cf.create_named("Or2").unwrap();
    for _ in 0..3 {
        a.update(&[L, L]);
    }
    let mut b = a.clone();
    for _ in 0..3 {
        b.update(&[H, H]);
    }
    assert_eq!(a.update(&[L, L]), vec![L]);
    assert_eq!(b.update(&[H, H]), vec![H]);
    let c = a.box_clone();
    assert_eq!(c.internal_inputs(), a.internal_inputs());
}

#[test]
fn wrapped_primitive_passes_values_through() {
    let comp = Component::Nand(Nand::new(2));
    let mut net = comp.clone_as_structural().unwrap();
    assert_eq!(net.name(), "wNand");
    assert_eq!(net.num_inputs(), 2);
    assert_eq!(net.num_outputs(), 1);
    assert_eq!(net.port_names().input, names(&["i0", "i1"]));
    assert_eq!(net.output(), vec![X]);
    assert_eq!(net.update(&[H, H]), vec![L]);
    assert_eq!(net.update(&[H, H]), vec![L]);
    assert_eq!(net.update(&[H, L]), vec![H]);
    assert_eq!(net.update(&[H, H]), vec![L]);
    assert_eq!(net.input(), vec![H, H]);
    assert_eq!(net.output(), vec![L]);
    let same = Component::Network(net).clone_as_structural().unwrap();
    assert_eq!(same.name(), "wNand");
}

#[test]
fn a_network_can_be_built_by_hand() {
    // an inverter: boundary input 0 -> gate input 0, gate output 0 -> boundary output 0
    let mut c_zero = CompIo::c_zero(1, 1);
    c_zero.add_connection(0, Index::new(1, 0));
    let mut gate = CompIo::new(Component::Nand(Nand::new(1)));
    gate.add_connection(0, Index::new(0, 0));
    assert_eq!(gate.input(), &vec![X]);
    assert_eq!(gate.output(), &vec![X]);
    assert!(gate.output_changed());
    gate.update();
    assert!(!gate.output_changed());
    let info = Rc::new(info("Not", &["a"], &["x"]));
    let mut net = Network::new(vec![c_zero, gate], info);
    assert_eq!(net.component_dirty, vec![true, true]);
    // one gate between input and output: one tick
    assert_eq!(net.update(&[H]), vec![L]);
    assert_eq!(net.update(&[H]), vec![L]);
    assert_eq!(net.update(&[L]), vec![H]);
    assert_eq!(net.update(&[X]), vec![X]);

    let mut c_zero = CompIo::c_zero(1, 1);
    c_zero.add_connection(0, Index::new(0, 0));
    let mut wire = Network::new_legacy(
        vec![c_zero],
        1,
        1,
        "Wire",
        PortNames::new(&["a"], &["x"]),
    );
    assert_eq!(wire.name(), "Wire");
    assert_eq!(wire.update(&[H]), vec![H]);
    assert_eq!(wire.update(&[L]), vec![L]);
}

#[test]
fn nested_networks_have_the_ports_of_their_signatures() {
    let cf = ComponentFactory::new(vec![
        or2(),
        (
            info("Or3", &["a", "b", "c"], &["x"]),
            vec![info("Or2", &["a", "b"], &["ab"]), info("Or2", &["ab", "c"], &["x"])],
        ),
        (
            info("Or4", &["a", "b", "c", "d"], &["x"]),
            vec![info("Or3", &["a", "b", "c"], &["abc"]), info("Or2", &["abc", "d"], &["x"])],
        ),
    ])
    .unwrap();
    let top = cf.create_named("Or4").unwrap();
    assert_eq!((top.num_inputs(), top.num_outputs()), (4, 1));
    let net = top.as_structural().unwrap();
    let or3 = &net.components[1].comp;
    assert_eq!((or3.num_inputs(), or3.num_outputs()), (3, 1));
    assert_eq!(or3.name(), "Or3");
    assert!(or3.needs_update());
    let or2 = &or3.as_structural().unwrap().components[2].comp;
    assert_eq!((or2.num_inputs(), or2.num_outputs()), (2, 1));
    assert_eq!(or2.port_names().input, names(&["a", "b"]));
    let mut top = top;
    let mut out = vec![];
    for _ in 0..12 {
        out = top.update(&[L, L, L, H]);
    }
    assert_eq!(out, vec![H]);
    for _ in 0..12 {
        out = top.update(&[L, L, L, L]);
    }
    assert_eq!(out, vec![L]);
}

#[test]
fn a_later_stream_does_not_reach_earlier_bridges() {
    let def = (
        info("Read", &["clk"], &["eof"]),
        vec![info(
            "Stdin",
            &["clk"],
            &["eof", "x$7", "x$6", "x$5", "x$4", "x$3", "x$2", "x$1", "x$0"],
        )],
    );
    let mut cf = ComponentFactory::new(vec![def]).unwrap();
    cf.set_stdin_bufread(reader(b""));
    let mut empty = cf.create_named("Read").unwrap();
    cf.set_stdin_bufread(reader(b"xyz"));
    let mut full = cf.create_named("Read").unwrap();
    let mut run = |c: &mut Component| {
        let mut out = vec![];
        for clk in [L, L, H, H, H] {
            out = c.update(&[clk]);
        }
        out
    };
    assert_eq!(run(&mut empty), vec![H]);
    assert_eq!(run(&mut full), vec![L]);
}

#[test]
fn cat() {
    // A ring of three gates makes a clock that runs while `en` is high. Each
    // rising edge reads a byte, and the byte is written four ticks later,
    // unless the read met the end of the stream.
    let x8 = ["x$7", "x$6", "x$5", "x$4", "x$3", "x$2", "x$1", "x$0"];
    let mut stdin_out = vec!["eof"];
    stdin_out.extend(x8);
    let mut stdout_in = vec!["wr"];
    stdout_in.extend(x8);
    let def = (
        info("Cat", &["en"], &["eof"]),
        vec![
            info("Nand", &["en", "c2"], &["clk"]),
            info("Nand", &["clk"], &["c1"]),
            info("Nand", &["c1"], &["c2"]),
            info("Stdin", &["clk"], &stdin_out),
            info("Nand", &["eof"], &["more"]),
            info("Nand", &["c2", "more"], &["n_wr"]),
            info("Nand", &["n_wr"], &["wr"]),
            info("Stdout", &stdout_in, &[]),
        ],
    );
    let input = format!("Hello, world!").into_bytes();
    let handle = Rc::new(RefCell::new(Cursor::new(Vec::<u8>::new())));
    let s = {
        let mut cf = ComponentFactory::new(vec![def]).unwrap();
        cf.set_stdin_bufread(reader(&input));
        cf.set_stdout_bufwrite(RcWrite(handle.clone()));
        cf.create_named("Cat").unwrap()
    };
    assert_eq!(s.num_inputs(), 1);
    assert_eq!(s.num_outputs(), 1);
    let mut s = s;
    for _ in 0..10 {
        assert_eq!(s.update(&[Bit::L]), vec![Bit::X]);
    }
    let mut eof = Bit::L;
    let mut ticks = 0;
    while eof != Bit::H {
        eof = s.update(&[Bit::H])[0];
        ticks += 1;
        assert!(ticks < 1000);
    }
    // Wait for the last write...
    for _ in 0..3 {
        s.update(&[Bit::H]);
    }
    assert_eq!(&input, handle.borrow_mut().get_ref());
}

#[test]
fn validity_can_be_tested() {
    let cf = ComponentFactory::new(vec![or2()]).unwrap();
    let mut c = cf.create_named("Or2").unwrap();
    assert!(c.is_valid());
    c.update(&[H, L]);
    assert!(c.is_valid());
    assert!(Component::Nand(Nand::new(7)).is_valid());
    assert!(Stdin::new().is_valid());

    // a fan-out entry that is no pin
    let mut c_zero = CompIo::c_zero(1, 1);
    c_zero.add_connection(0, Index::new(1, 1));
    let gate = CompIo::new(Component::Nand(Nand::new(1)));
    let net = Network::new(vec![c_zero, gate], Rc::new(info("Not", &["a"], &["x"])));
    assert!(!net.is_valid());
    // a boundary that does not fit the signature is not accepted at all by
    // `Network::new`; one that fits, with pins in range, is in order
    let mut c_zero = CompIo::c_zero(1, 1);
    c_zero.add_connection(0, Index::new(1, 0));
    let mut gate = CompIo::new(Component::Nand(Nand::new(1)));
    gate.add_connection(0, Index::new(0, 0));
    let mut net = Network::new(vec![c_zero, gate], Rc::new(info("Not", &["a"], &["x"])));
    assert!(net.is_valid());
    // the lists of the network are open: one flag too many puts it out of order
    net.component_dirty.push(true);
    assert!(!net.is_valid());
}

#[test]
fn places_are_equal_when_instance_and_port_are() {
    assert_eq!(InstanceIndex::new(5, 6), InstanceIndex::new(5, 6));
    assert_ne!(InstanceIndex::new(5, 6), InstanceIndex::new(6, 5));
    assert_ne!(InstanceIndex::new(5, 6), InstanceIndex::new(5, 7));
    assert_ne!(InstanceIndex::new(0, 1), InstanceIndex::new(1, 1));
}
