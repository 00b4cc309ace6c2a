use comphdl::bit::Bit::{H, L, X};
use comphdl::component::{Component, ComponentIndex, Direction, InstanceIndex, Nand};
use comphdl::emit_json::{
    cell_name, from_structural, wire_count, yosys_addr_map, Cell, Module, Netname, Port,
};
use comphdl::syntax::parse_str;
use comphdl::trace::{instance_name, trace_layout, trace_values, TraceItem};
use comphdl::wave_json::{Foot, Signal, WaveJson};

const OR2: &str = r#"
    component Or2(a, b) -> x {
        Nand(a) -> n_a;
        Nand(b) -> n_b;
        Nand(n_a, n_b) -> x; 
    }
    "#;

fn wave(s: &Signal) -> String {
    s.wave().iter().collect()
}

#[test]
fn from_or2() {
    let cf = parse_str(OR2).unwrap();
    let or2 = cf.create_named("Or2").unwrap();
    let or2 = or2.as_structural().unwrap();
    let mut s = WaveJson::from_structural(or2);
    s.update(or2);
}

#[test]
fn waves_record_one_mark_per_tick() {
    let cf = parse_str(OR2).unwrap();
    let mut or2 = cf.create_named("Or2").unwrap();
    let mut w = WaveJson::from_structural(or2.as_structural().unwrap());
    assert_eq!(w.tick(), Some(0));
    assert_eq!(w.signals().len(), 3);
    assert_eq!(w.signals()[0].name(), "a");
    assert_eq!(w.signals()[1].name(), "b");
    assert_eq!(w.signals()[2].name(), "x");
    for v in [[L, L], [L, L], [L, L], [H, L], [H, L], [H, X]] {
        or2.update(&v);
        w.update(or2.as_structural().unwrap());
    }
    assert_eq!(wave(&w.signals()[0]), "l..h..");
    assert_eq!(wave(&w.signals()[1]), "l....X");
    assert_eq!(wave(&w.signals()[2]), ".l..h.");
    assert_eq!(w.tick(), Some(0));
}

#[test]
fn waves_are_cut_to_the_buffer_length() {
    let cf = parse_str(OR2).unwrap();
    let mut or2 = cf.create_named("Or2").unwrap();
    let mut w = WaveJson::from_structural(or2.as_structural().unwrap());
    w.set_buffer_len(3);
    for v in [[L, L], [L, L], [L, L], [L, L], [H, L], [H, L]] {
        or2.update(&v);
        w.update(or2.as_structural().unwrap());
    }
    assert_eq!(wave(&w.signals()[0]), "lh.");
    assert_eq!(wave(&w.signals()[1]), "l..");
    assert_eq!(wave(&w.signals()[2]), "l.h");
    assert_eq!(w.tick(), Some(3));
}

#[test]
fn a_signal_marks_repeated_levels_with_dots() {
    let mut s = Signal::new("s".to_string());
    assert_eq!(s.last_level(), 'X');
    s.push_value(X);
    assert_eq!(wave(&s), ".");
    s.push_value(L);
    s.push_value(L);
    s.push_value(H);
    s.push_value(H);
    s.push_value(X);
    assert_eq!(wave(&s), ".l.h.X");
    assert_eq!(s.last_level(), 'X');
    assert_eq!(s.keep_last(10), 0);
    assert_eq!(s.keep_last(6), 0);
    assert_eq!(wave(&s), ".l.h.X");
    // the first kept mark is a dot: it is given its level
    assert_eq!(s.keep_last(4), 2);
    assert_eq!(wave(&s), "lh.X");
    assert_eq!(s.keep_last(2), 2);
    assert_eq!(wave(&s), "hX");
    assert_eq!(s.keep_last(0), 2);
    assert_eq!(wave(&s), "");
    let mut t = Signal::new("t".to_string());
    t.push_value(X);
    t.push_value(X);
    assert_eq!(t.keep_last(1), 1);
    assert_eq!(wave(&t), "X");
}

#[test]
fn a_foot_holds_its_tick() {
    let mut f = Foot::new();
    assert_eq!((f.text.clone(), f.tick, f.tock), (None, None, None));
    f.set_tick(Some(7));
    assert_eq!(f.tick, Some(7));
    f.set_tick(None);
    assert_eq!(f.tick, None);
}

#[test]
fn pins_are_numbered_from_two_slot_by_slot() {
    let cf = parse_str(OR2).unwrap();
    let or2 = cf.create_named("Or2").unwrap();
    let net = or2.as_structural().unwrap();
    assert_eq!(wire_count(net), Some(2 + 3 + 2 + 2 + 3));
    let map = yosys_addr_map(net);
    // the ports of the network: inputs a, b and output x
    assert_eq!(map.get(ComponentIndex::input(0, 0)), Some(2));
    assert_eq!(map.get(ComponentIndex::input(0, 1)), Some(3));
    assert_eq!(map.get(ComponentIndex::output(0, 0)), Some(4));
    // the inputs of the first two gates are fed by a and b: they take their numbers
    assert_eq!(map.get(ComponentIndex::input(1, 0)), Some(2));
    assert_eq!(map.get(ComponentIndex::output(1, 0)), Some(6));
    assert_eq!(map.get(ComponentIndex::input(2, 0)), Some(3));
    assert_eq!(map.get(ComponentIndex::output(2, 0)), Some(8));
    assert_eq!(map.get(ComponentIndex::input(3, 0)), Some(9));
    assert_eq!(map.get(ComponentIndex::input(3, 1)), Some(10));
    assert_eq!(map.get(ComponentIndex::output(3, 0)), Some(11));
    assert_eq!(map.get(ComponentIndex::input(3, 2)), None);
    assert_eq!(map.get(ComponentIndex::input(4, 0)), None);
    assert_eq!(map.get(ComponentIndex::output(0, 1)), None);
}

#[test]
fn an_output_wired_to_an_input_takes_its_number() {
    let cf = parse_str("component Wire(a, b) -> (x, y) { x = b; Nand(a) -> y; }").unwrap();
    let c = cf.create_named("Wire").unwrap();
    let net = c.as_structural().unwrap();
    let map = yosys_addr_map(net);
    assert_eq!(map.get(ComponentIndex::output(0, 0)), Some(3));
    assert_eq!(map.get(ComponentIndex::output(0, 1)), Some(5));
    let module = Module::from_structural(net);
    let ports: Vec<(String, Direction, Vec<usize>)> = module
        .ports
        .iter()
        .map(|(n, p)| (n.clone(), p.direction, p.bits.clone()))
        .collect();
    assert_eq!(
        ports,
        vec![
            ("a".to_string(), Direction::Input, vec![2]),
            ("b".to_string(), Direction::Input, vec![3]),
            ("x".to_string(), Direction::Output, vec![3]),
            ("y".to_string(), Direction::Output, vec![5]),
        ]
    );
}

#[test]
fn the_netlist_has_a_cell_for_each_slot() {
    let cf = parse_str(OR2).unwrap();
    let or2 = cf.create_named("Or2").unwrap();
    let net = or2.as_structural().unwrap();
    let json = from_structural(net).unwrap();
    assert_eq!(json.creator, "comphdl 0.3");
    assert_eq!(json.modules.len(), 1);
    assert_eq!(json.modules[0].0, "Or2");
    let module = &json.modules[0].1;
    assert!(module.netnames.is_empty());
    assert_eq!(module.cells.len(), 3);
    assert_eq!(module.cells[0].0, "$Nand$input.v:1$1");
    assert_eq!(module.cells[2].0, "$Nand$input.v:1$3");
    let last = &module.cells[2].1;
    assert_eq!(last.hide_name, 0);
    assert_eq!(last.kind, "Nand");
    assert_eq!(
        last.port_directions,
        vec![
            ("i0".to_string(), Direction::Input),
            ("i1".to_string(), Direction::Input),
            ("o0".to_string(), Direction::Output),
        ]
    );
    assert_eq!(
        last.connections,
        vec![
            ("i0".to_string(), vec![9]),
            ("i1".to_string(), vec![10]),
            ("o0".to_string(), vec![4]),
        ]
    );
    let first = &module.cells[0].1;
    assert_eq!(
        first.connections,
        vec![("i0".to_string(), vec![2]), ("o0".to_string(), vec![9])]
    );
}

#[test]
fn netlist_parts_hold_what_they_are_given() {
    let p = Port::input(5);
    assert_eq!((p.direction, p.bits), (Direction::Input, vec![5]));
    let p = Port::output(6);
    assert_eq!((p.direction, p.bits), (Direction::Output, vec![6]));
    let n = Netname::new(7);
    assert_eq!((n.hide_name, n.bits), (1, vec![7]));
    assert_eq!(cell_name("Or2", 12), "$Or2$input.v:1$12");
    let cf = parse_str(OR2).unwrap();
    let or2 = cf.create_named("Or2").unwrap();
    let net = or2.as_structural().unwrap();
    let map = yosys_addr_map(net);
    let slot = &net.components[3];
    let cell = Cell::new(
        3,
        "Gate".to_string(),
        2,
        1,
        slot.fanout(),
        &map,
        &slot.component().port_names(),
    );
    assert_eq!(cell.kind, "Gate");
    assert_eq!(cell.connections.len(), 3);
}

fn line(item: &TraceItem) -> String {
    match item {
        TraceItem::Enter(name) => format!("enter {}", name),
        TraceItem::Wire(name, at) => format!("wire {} {}.{}", name, at.instance(), at.port()),
        TraceItem::Leave => "leave".to_string(),
    }
}

#[test]
fn trace_declares_every_instance_in_its_scope() {
    let cf = parse_str(
        "component Not(a) -> x { Nand(a) -> x; }
         component Top(a) -> (x, y) { Not(a) -> x; Nand(a, x) -> y; }",
    )
    .unwrap();
    let top = cf.create_named("Top").unwrap();
    let layout: Vec<String> = trace_layout(&top).unwrap().iter().map(line).collect();
    assert_eq!(
        layout,
        vec![
            "enter Top-0",
            "wire Top-0-a 0.0",
            "wire Top-0-x 0.1",
            "wire Top-0-y 0.2",
            "enter Not-1",
            "wire Not-1-a 1.0",
            "wire Not-1-x 1.1",
            "enter Nand-2",
            "wire Nand-2-i0 2.0",
            "wire Nand-2-o0 2.1",
            "leave",
            "leave",
            "enter Nand-3",
            "wire Nand-3-i0 3.0",
            "wire Nand-3-i1 3.1",
            "wire Nand-3-o0 3.2",
            "leave",
            "leave",
        ]
    );
    assert_eq!(instance_name("Top", 10), "Top-10");
    assert!(trace_layout(&Component::Nand(Nand::new(2))).unwrap().is_empty());
}

#[test]
fn trace_values_follow_the_declarations() {
    let cf = parse_str(
        "component Not(a) -> x { Nand(a) -> x; }
         component Top(a) -> (x, y) { Not(a) -> x; Nand(a, x) -> y; }",
    )
    .unwrap();
    let mut top = cf.create_named("Top").unwrap();
    let wires = trace_layout(&top)
        .unwrap()
        .iter()
        .filter_map(|i| match i {
            TraceItem::Wire(_, at) => Some(*at),
            _ => None,
        })
        .collect::<Vec<InstanceIndex>>();
    let places = |c: &Component| {
        trace_values(c).unwrap().iter().map(|(at, _)| *at).collect::<Vec<InstanceIndex>>()
    };
    assert_eq!(places(&top), wires);
    for _ in 0..4 {
        top.update(&[H]);
    }
    let values: Vec<_> = trace_values(&top).unwrap().iter().map(|(_, b)| *b).collect();
    assert_eq!(values, vec![H, L, H, H, L, H, L, H, L, H]);
    assert_eq!(places(&top), wires);
    assert!(trace_values(&Component::Nand(Nand::new(2))).unwrap().is_empty());
}
