use comphdl::assignments::{Assignments, Unbalanced};
use comphdl::component::{ComponentIndex, Direction};
use comphdl::factory::{ComponentFactory, FactoryError, InstantiateError};
use comphdl::info::{CompInfo, DuplicatePort};
use comphdl::parser::{CompDefinition, CompId, CompileError, StatementFault};

fn names(v: &[&str]) -> Vec<String> {
    v.iter().map(|s| s.to_string()).collect()
}

fn info(name: &str, ins: &[&str], outs: &[&str]) -> CompInfo {
    CompInfo::new(name.to_string(), names(ins), names(outs))
}

fn assign(left: &[&str], right: &[&str]) -> CompInfo {
    info("actually, I'm just an assignment", left, right)
}

fn or2() -> (CompInfo, Vec<CompInfo>) {
    (
        info("Or2", &["a", "b"], &["x"]),
        vec![
            info("Nand", &["a"], &["n_a"]),
            info("Nand", &["b"], &["n_b"]),
            info("Nand", &["n_a", "n_b"], &["x"]),
        ],
    )
}

fn registry(sigs: &[CompInfo]) -> Vec<CompInfo> {
    let mut v = vec![
        info("Nand", &[], &[]),
        info("ConstantBit", &[], &[]),
        info("Stdin", &[], &[]),
        info("Stdout", &[], &[]),
    ];
    for s in sigs {
        v.push(s.clone());
    }
    v
}

fn loads_of(def: &CompDefinition, from: ComponentIndex) -> Option<Vec<ComponentIndex>> {
    for c in def.connections() {
        if c.from == from {
            let mut to = c.to.clone();
            to.sort_by_key(|e| (e.c_id, e.port_id));
            return Some(to);
        }
    }
    None
}

#[test]
fn or2_compiles_to_its_connection_table() {
    let (sig, body) = or2();
    let reg = registry(&[sig.clone()]);
    let def = CompDefinition::new(&reg, &sig, &body).unwrap();
    assert_eq!(def.comp(), &vec![CompId(4), CompId(0), CompId(0), CompId(0)]);
    assert_eq!(def.generics(), &vec![(2, 1), (1, 1), (1, 1), (2, 1)]);
    assert_eq!(def.connections().len(), 5);
    assert_eq!(loads_of(&def, ComponentIndex::output(0, 0)), Some(vec![ComponentIndex::input(1, 0)]));
    assert_eq!(loads_of(&def, ComponentIndex::output(0, 1)), Some(vec![ComponentIndex::input(2, 0)]));
    assert_eq!(loads_of(&def, ComponentIndex::output(1, 0)), Some(vec![ComponentIndex::input(3, 0)]));
    assert_eq!(loads_of(&def, ComponentIndex::output(2, 0)), Some(vec![ComponentIndex::input(3, 1)]));
    assert_eq!(loads_of(&def, ComponentIndex::output(3, 0)), Some(vec![ComponentIndex::input(0, 0)]));
}

#[test]
fn no_input_pin_has_two_drivers() {
    let (sig, body) = or2();
    let reg = registry(&[sig.clone()]);
    let def = CompDefinition::new(&reg, &sig, &body).unwrap();
    let mut seen: Vec<ComponentIndex> = vec![];
    for c in def.connections() {
        assert_eq!(c.from.direction, Direction::Output);
        for e in &c.to {
            assert_eq!(e.direction, Direction::Input);
            assert!(!seen.contains(e));
            seen.push(*e);
        }
    }
}

#[test]
fn two_instances_driving_one_name_is_a_conflict() {
    let sig = info("Bad", &["a", "b"], &["x"]);
    let body = vec![info("Nand", &["a"], &["x"]), info("Nand", &["b"], &["x"])];
    let reg = registry(&[sig.clone()]);
    match CompDefinition::new(&reg, &sig, &body) {
        Err(CompileError::MultipleDrivers { signal, first, second }) => {
            assert_eq!(signal, "x");
            assert_eq!(first, ComponentIndex::output(1, 0));
            assert_eq!(second, ComponentIndex::output(2, 0));
        }
        other => panic!("expected a driver conflict, got {:?}", other.map(|_| ())),
    }
}

#[test]
fn assignment_can_join_two_drivers_into_a_conflict() {
    let sig = info("Bad", &["a", "b"], &["x"]);
    let body = vec![
        info("Nand", &["a"], &["p"]),
        info("Nand", &["b"], &["q"]),
        assign(&["p"], &["q"]),
        assign(&["x"], &["p"]),
    ];
    let reg = registry(&[sig.clone()]);
    assert!(matches!(
        CompDefinition::new(&reg, &sig, &body),
        Err(CompileError::MultipleDrivers { .. })
    ));
}

#[test]
fn an_input_assigned_to_an_input_is_a_conflict() {
    let sig = info("Bad", &["a", "b"], &["x"]);
    let body = vec![assign(&["a"], &["b"])];
    let reg = registry(&[sig.clone()]);
    assert!(matches!(
        CompDefinition::new(&reg, &sig, &body),
        Err(CompileError::MultipleDrivers { .. })
    ));
}

#[test]
fn chained_assignments_merge_in_any_order() {
    let sig = info("Chain", &["a"], &["d"]);
    for body in [
        vec![assign(&["a"], &["b"]), assign(&["b"], &["c"]), assign(&["c"], &["d"])],
        vec![assign(&["c"], &["d"]), assign(&["a"], &["b"]), assign(&["b"], &["c"])],
        vec![assign(&["a", "c", "b"], &["b", "d", "c"])],
    ] {
        let reg = registry(&[sig.clone()]);
        let def = CompDefinition::new(&reg, &sig, &body).unwrap();
        assert_eq!(def.connections().len(), 1);
        assert_eq!(
            loads_of(&def, ComponentIndex::output(0, 0)),
            Some(vec![ComponentIndex::input(0, 0)])
        );
    }
}

#[test]
fn wildcard_pins_are_connected_to_nothing() {
    let add = info("Add", &["a", "b", "c_in"], &["c_out", "x"]);
    let sig = info("Add2", &["a", "b"], &["x", "y"]);
    let body = vec![
        info("Add", &["a", "b", "_"], &["_", "x"]),
        info("Add", &["b", "a", "_"], &["_", "y"]),
    ];
    let reg = registry(&[add, sig.clone()]);
    let def = CompDefinition::new(&reg, &sig, &body).unwrap();
    assert_eq!(loads_of(&def, ComponentIndex::output(1, 0)), None);
    assert_eq!(loads_of(&def, ComponentIndex::output(2, 0)), None);
    assert_eq!(
        loads_of(&def, ComponentIndex::output(0, 0)),
        Some(vec![ComponentIndex::input(1, 0), ComponentIndex::input(2, 1)])
    );
    assert_eq!(loads_of(&def, ComponentIndex::output(1, 1)), Some(vec![ComponentIndex::input(0, 0)]));
}

#[test]
fn a_signal_without_driver_is_no_error() {
    let sig = info("Open", &["a"], &["x"]);
    let body = vec![info("Nand", &["a", "floating"], &["x"])];
    let reg = registry(&[sig.clone()]);
    let def = CompDefinition::new(&reg, &sig, &body).unwrap();
    assert_eq!(def.connections().len(), 2);
}

#[test]
fn a_driver_without_load_has_an_empty_entry() {
    let sig = info("Sink", &["a"], &[]);
    let reg = registry(&[sig.clone()]);
    let def = CompDefinition::new(&reg, &sig, &[]).unwrap();
    assert_eq!(loads_of(&def, ComponentIndex::output(0, 0)), Some(vec![]));
}

#[test]
fn recursive_definition_is_rejected() {
    let sig = info("Loop", &["a"], &["x"]);
    let body = vec![info("Nand", &["a"], &["b"]), info("Loop", &["b"], &["x"])];
    let reg = registry(&[sig.clone()]);
    match CompDefinition::new(&reg, &sig, &body) {
        Err(CompileError::Statement { statement, fault }) => {
            assert_eq!(statement, 1);
            assert_eq!(fault, StatementFault::RecursiveDefinition);
        }
        other => panic!("unexpected {:?}", other.map(|_| ())),
    }
}

#[test]
fn unknown_component_is_rejected() {
    let sig = info("Top", &["a"], &["x"]);
    let body = vec![info("Nope", &["a"], &["x"])];
    let reg = registry(&[sig.clone()]);
    match CompDefinition::new(&reg, &sig, &body) {
        Err(CompileError::Statement { statement, fault }) => {
            assert_eq!(statement, 0);
            assert_eq!(fault, StatementFault::ComponentNotFound);
        }
        other => panic!("unexpected {:?}", other.map(|_| ())),
    }
}

#[test]
fn unbalanced_assignment_is_rejected() {
    let sig = info("Top", &["a", "b"], &["x"]);
    let body = vec![assign(&["x"], &["a", "b"])];
    let reg = registry(&[sig.clone()]);
    match CompDefinition::new(&reg, &sig, &body) {
        Err(CompileError::Statement { statement, fault }) => {
            assert_eq!(statement, 0);
            assert_eq!(fault, StatementFault::UnbalancedAssignment { left: 1, right: 2 });
        }
        other => panic!("unexpected {:?}", other.map(|_| ())),
    }
}

#[test]
fn arity_is_checked_against_the_signature() {
    let (or2_sig, _) = or2();
    let sig = info("Or3a", &["a", "b", "c"], &["x"]);
    let reg = registry(&[or2_sig, sig.clone()]);
    match CompDefinition::new(&reg, &sig, &[info("Or2", &["a", "b", "c"], &["x"])]) {
        Err(CompileError::Statement { statement, fault }) => {
            assert_eq!(statement, 0);
            assert_eq!(fault, StatementFault::WrongNumberOfInputs { expected: 2, supplied: 3 });
        }
        other => panic!("unexpected {:?}", other.map(|_| ())),
    }
    match CompDefinition::new(&reg, &sig, &[info("Or2", &["a", "b"], &["x", "y"])]) {
        Err(CompileError::Statement { statement, fault }) => {
            assert_eq!(statement, 0);
            assert_eq!(fault, StatementFault::WrongNumberOfOutputs { expected: 1, supplied: 2 });
        }
        other => panic!("unexpected {:?}", other.map(|_| ())),
    }
}

#[test]
fn the_first_statement_at_fault_is_reported() {
    let sig = info("Top", &["a"], &["x"]);
    let body = vec![
        info("Nand", &["a"], &["x"]),
        assign(&["x"], &[]),
        info("Nope", &["a"], &["x"]),
    ];
    let reg = registry(&[sig.clone()]);
    match CompDefinition::new(&reg, &sig, &body) {
        Err(CompileError::Statement { statement, .. }) => assert_eq!(statement, 1),
        other => panic!("unexpected {:?}", other.map(|_| ())),
    }
}

#[test]
fn arrays_of_two_dimensions_are_rejected() {
    let sig = info("Top", &["a$1$0"], &["x"]);
    let reg = registry(&[sig.clone()]);
    match CompDefinition::new(&reg, &sig, &[]) {
        Err(CompileError::UnsupportedArray { name }) => assert_eq!(name, "a$1$0"),
        other => panic!("unexpected {:?}", other.map(|_| ())),
    }
}

#[test]
fn a_name_cannot_be_array_and_bit() {
    let sig = info("Top", &["a", "a$1", "a$0"], &["x"]);
    let reg = registry(&[sig.clone()]);
    match CompDefinition::new(&reg, &sig, &[]) {
        Err(CompileError::ArrayUsedAsBit { name }) => assert_eq!(name, "a"),
        other => panic!("unexpected {:?}", other.map(|_| ())),
    }
    let sig = info("Top", &["a$1", "a$0"], &["x"]);
    let reg = registry(&[sig.clone()]);
    match CompDefinition::new(&reg, &sig, &[assign(&["x"], &["a"])]) {
        Err(CompileError::ArrayUsedAsBit { name }) => assert_eq!(name, "a"),
        other => panic!("unexpected {:?}", other.map(|_| ())),
    }
}

#[test]
fn wrong_number_of_inputs_by_hand() {
    let cf = ComponentFactory::new(vec![
        or2(),
        (info("Or3a", &["a", "b", "c"], &["x"]), vec![info("Or2", &["a", "b", "c"], &["x"])]),
        (info("Or3b", &["a", "b", "c"], &["x"]), vec![info("Or2", &["a"], &["x"])]),
    ]);
    assert!(cf.is_err());
    match cf {
        Err(FactoryError::Definition { definition, error }) => {
            assert_eq!(definition, 1);
            assert!(matches!(
                error,
                CompileError::Statement {
                    statement: 0,
                    fault: StatementFault::WrongNumberOfInputs { expected: 2, supplied: 3 }
                }
            ));
        }
        _ => panic!("expected a definition error"),
    }

    let cf = ComponentFactory::new(vec![
        or2(),
        (
            info("Or3", &["a", "b", "c"], &["x"]),
            vec![info("Or2", &["a", "b"], &["ab"]), info("Or2", &["ab", "c"], &["x"])],
        ),
    ]);
    assert!(cf.is_ok());
}

#[test]
fn redefinition_by_hand() {
    let cf = ComponentFactory::new(vec![
        or2(),
        (info("Or2", &["a", "b", "c"], &["x"]), vec![info("Nand", &["a", "b"], &["x"])]),
    ]);
    assert!(cf.is_err());
    assert!(matches!(cf, Err(FactoryError::Redefinition { definition: 1 })));
}

#[test]
fn a_primitive_cannot_be_redefined() {
    let cf = ComponentFactory::new(vec![(info("Nand", &["a"], &["x"]), vec![])]);
    assert!(matches!(cf, Err(FactoryError::Redefinition { definition: 0 })));
}

#[test]
fn duplicate_port_names_are_rejected() {
    let cf = ComponentFactory::new(vec![(info("Quad", &["a"], &["a", "b"]), vec![])]);
    assert!(matches!(
        cf,
        Err(FactoryError::DuplicatePort { definition: 0, port: DuplicatePort::Output(0) })
    ));
    let cf = ComponentFactory::new(vec![(info("Twice", &["a", "b", "a"], &["x"]), vec![])]);
    assert!(matches!(
        cf,
        Err(FactoryError::DuplicatePort { definition: 0, port: DuplicatePort::Input(2) })
    ));
    assert!(!info("Twice", &["a", "b", "a"], &["x"]).verify());
    assert!(info("Fine", &["a", "b"], &["x"]).verify());
}

#[test]
fn array_1d_by_hand() {
    let cf = ComponentFactory::new(vec![(
        info("ArrayTest1D", &["a$3", "a$2", "a$1", "a$0"], &["b$3", "b$2", "b$1", "b$0"]),
        vec![assign(&["a$3", "a$2", "a$1", "a$0"], &["b$3", "b$2", "b$1", "b$0"])],
    )]);
    let cf = cf.unwrap();

    let s = cf.create_named("ArrayTest1D");
    let s = s.unwrap();
    assert_eq!(s.num_inputs(), 4);
    assert_eq!(s.num_outputs(), 4);
}

#[test]
fn unconnected_by_hand() {
    let w4 = ["_", "_", "_", "_"];
    let wa = ["_$3", "_$2", "_$1", "_$0"];
    let a4 = ["a$3", "a$2", "a$1", "a$0"];
    let b4 = ["b$3", "b$2", "b$1", "b$0"];
    let x4 = ["x$3", "x$2", "x$1", "x$0"];
    let ab: Vec<&str> = a4.iter().chain(b4.iter()).copied().collect();
    let cf = ComponentFactory::new(vec![
        (
            info("Add", &["a", "b", "c_in"], &["c_out", "x"]),
            vec![assign(&["c_out"], &["a"]), assign(&["x"], &["b"])],
        ),
        (
            info("Add2", &["a", "b"], &["x", "y"]),
            vec![
                info("Add", &["a", "b", "_"], &["_", "x"]),
                info("Add", &["b", "a", "_"], &["_", "y"]),
            ],
        ),
        (
            info("Add4", &["a"], &["x", "y"]),
            vec![
                info("Add", &["a", "_$1", "_$0"], &["_$0", "x"]),
                info("Add", &["b", "_$2", "_$1"], &["_$0", "y"]),
            ],
        ),
        (
            info("AssignNothing", &ab, &["x"]),
            vec![
                assign(&a4, &w4),
                assign(&b4, &w4),
                assign(&["x"], &["_"]),
                assign(&["x"], &["a$2"]),
            ],
        ),
        (
            info("AssignNothingArray", &ab, &x4),
            vec![assign(&a4, &wa), assign(&b4, &wa), assign(&x4, &wa), assign(&x4, &a4)],
        ),
    ]);
    assert!(!cf.is_err());
}

#[test]
fn mutual_recursion_is_rejected() {
    let cf = ComponentFactory::new(vec![
        (info("A", &["a"], &["x"]), vec![info("B", &["a"], &["x"])]),
        (info("B", &["a"], &["x"]), vec![info("A", &["a"], &["x"])]),
        (info("C", &["a"], &["x"]), vec![info("Nand", &["a"], &["x"])]),
    ]);
    assert!(matches!(cf, Err(FactoryError::CyclicDefinition { definition: 0 })));
}

#[test]
fn definitions_may_come_in_any_order() {
    let cf = ComponentFactory::new(vec![
        (
            info("Or3", &["a", "b", "c"], &["x"]),
            vec![info("Or2", &["a", "b"], &["ab"]), info("Or2", &["ab", "c"], &["x"])],
        ),
        or2(),
    ])
    .unwrap();
    let c = cf.create_named("Or3").unwrap();
    assert_eq!(c.num_inputs(), 3);
    assert_eq!(c.num_outputs(), 1);
    assert_eq!(c.name(), "Or3");
}

#[test]
fn unknown_top_level_name() {
    let cf = ComponentFactory::new(vec![or2()]).unwrap();
    assert!(matches!(cf.create_named("Or3"), Err(InstantiateError::UnknownComponent)));
    assert!(matches!(cf.create_named("Nand"), Err(InstantiateError::UnknownComponent)));
}

#[test]
fn a_primitive_with_wrong_ports_fails_at_instantiation() {
    let cf = ComponentFactory::new(vec![
        (info("Bad", &["a"], &["x"]), vec![info("Stdout", &["a"], &["x"])]),
        (info("Outer", &["a"], &["x"]), vec![info("Bad", &["a"], &["x"])]),
        (info("Two", &["a"], &["x", "y"]), vec![info("Nand", &["a"], &["x", "y"])]),
    ])
    .unwrap();
    assert!(matches!(
        cf.create_named("Bad"),
        Err(InstantiateError::BuiltinArity { kind: CompId(3), inputs: 1, outputs: 1 })
    ));
    assert!(matches!(cf.create_named("Outer"), Err(InstantiateError::BuiltinArity { .. })));
    assert!(matches!(
        cf.create_named("Two"),
        Err(InstantiateError::BuiltinArity { kind: CompId(0), inputs: 1, outputs: 2 })
    ));
}

#[test]
fn assignments_group_names() {
    let mut a = Assignments::new();
    a.add_pair("a", "b");
    a.add_pair("c", "d");
    assert_eq!(a.len(), 2);
    assert_eq!(a.find("a"), a.find("b"));
    assert_ne!(a.find("a"), a.find("c"));
    a.add_pair("b", "d");
    assert_eq!(a.len(), 1);
    assert_eq!(a.find("a"), a.find("c"));
    let mut g = a.group(0).clone();
    g.sort();
    assert_eq!(g, names(&["a", "b", "c", "d"]));
    a.add_pair("a", "a");
    a.add_pair("_", "a");
    a.add_pair("e", "_$1");
    assert_eq!(a.len(), 1);
    assert_eq!(a.find("_"), None);
    assert_eq!(a.find("e"), None);
}

#[test]
fn assignments_reject_unbalanced_sides() {
    let mut a = Assignments::new();
    assert_eq!(a.add(&assign(&["a", "b"], &["c"])), Err(Unbalanced { left: 2, right: 1 }));
    assert_eq!(a.len(), 0);
    assert_eq!(a.add(&assign(&["a", "b"], &["c", "d"])), Ok(()));
    assert_eq!(a.len(), 2);
}

#[test]
fn assignments_keep_the_names_of_a_group_in_order() {
    let mut a = Assignments::new();
    a.add_pair("a", "b");
    a.add_pair("c", "d");
    a.add_pair("a", "c");
    assert_eq!(a.len(), 1);
    assert_eq!(a.group(0), &names(&["a", "b", "c", "d"]));
    a.add_pair("x", "b");
    assert_eq!(a.group(0), &names(&["a", "b", "c", "d", "x"]));
    a.add_pair("d", "y");
    assert_eq!(a.group(0), &names(&["a", "b", "c", "d", "x", "y"]));
    a.add_pair("y", "x");
    assert_eq!(a.len(), 1);
    assert_eq!(a.group(0), &names(&["a", "b", "c", "d", "x", "y"]));
}

#[test]
fn merging_two_groups_moves_the_last_group_into_the_gap() {
    let mut a = Assignments::new();
    a.add_pair("a", "b");
    a.add_pair("c", "d");
    a.add_pair("e", "f");
    a.add_pair("g", "h");
    a.add_pair("d", "a");
    assert_eq!(a.len(), 3);
    assert_eq!(a.group(0), &names(&["a", "b", "c", "d"]));
    assert_eq!(a.group(1), &names(&["g", "h"]));
    assert_eq!(a.group(2), &names(&["e", "f"]));
    a.add_pair("e", "h");
    assert_eq!(a.len(), 2);
    assert_eq!(a.group(0), &names(&["a", "b", "c", "d"]));
    assert_eq!(a.group(1), &names(&["g", "h", "e", "f"]));
}

#[test]
fn a_list_of_assignments_is_added_pair_by_pair() {
    let mut a = Assignments::new();
    assert_eq!(a.add(&assign(&["a", "c", "a", "_", "p"], &["b", "d", "c", "q", "p"])), Ok(()));
    assert_eq!(a.len(), 1);
    assert_eq!(a.group(0), &names(&["a", "b", "c", "d"]));
    assert_eq!(a.find("q"), None);
    assert_eq!(a.find("p"), None);
}

#[test]
fn the_order_of_assignments_does_not_change_the_partition() {
    let pairs = [("a", "b"), ("c", "d"), ("e", "f"), ("b", "c"), ("g", "g"), ("_", "e"), ("h", "f")];
    let all = ["a", "b", "c", "d", "e", "f", "g", "h", "_"];
    let mut forward = Assignments::new();
    for (l, r) in pairs.iter() {
        forward.add_pair(l, r);
    }
    let mut backward = Assignments::new();
    for (l, r) in pairs.iter().rev() {
        backward.add_pair(r, l);
    }
    assert_eq!(forward.len(), 2);
    assert_eq!(backward.len(), 2);
    for x in all.iter() {
        assert_eq!(forward.find(x).is_some(), backward.find(x).is_some());
        for y in all.iter() {
            let one = forward.find(x).is_some() && forward.find(x) == forward.find(y);
            let other = backward.find(x).is_some() && backward.find(x) == backward.find(y);
            assert_eq!(one, other);
        }
    }
}
