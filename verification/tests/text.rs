use comphdl::bit::Bit::{H, L, X};
use comphdl::factory::{ComponentFactory, FactoryError};
use comphdl::info::CompInfo;
use comphdl::lines::{Column, Line, Lines, Location};
use comphdl::parser::{CompileError, StatementFault};
use comphdl::syntax::{
    parse_definition, parse_file, parse_str, Expected, ParseError, SyntaxError,
};

fn names(v: &[&str]) -> Vec<String> {
    v.iter().map(|s| s.to_string()).collect()
}

fn same(c: &CompInfo, name: &str, ins: &[&str], outs: &[&str]) -> bool {
    c.name == name && c.inputs == names(ins) && c.outputs == names(outs)
}

const ASSIGN: &str = "actually, I'm just an assignment";

#[test]
fn parser_compdef_test() {
    let d = vec![
        "component Or2(a, b) -> x {}",
        "component Or2(a, b) -> (x) { }",
        "component Or2(a, b) -> (x,) { }",
        "component Or3(a, b, c) -> x { Or2(a, b) -> y; Or2(y, c) -> x; }",
    ];

    for x in d {
        println!("{:#?}", parse_definition(x.as_bytes()).unwrap());
    }
}

#[test]
fn definitions_are_read_as_written() {
    for text in [
        "component Or2(a, b) -> x {}",
        "component Or2(a, b) -> (x) { }",
        "component Or2(a, b) -> (x,) { }",
        "  component\tOr2 ( a ,b, )->x{ } // done\n",
    ] {
        let (sig, body) = parse_definition(text.as_bytes()).unwrap();
        assert!(same(&sig, "Or2", &["a", "b"], &["x"]));
        assert!(body.is_empty());
    }
    let (sig, body) = parse_definition(
        b"component Or3(a, b, c) -> x { Or2(a, b) -> y; Or2(y, c) -> x; }",
    )
    .unwrap();
    assert!(same(&sig, "Or3", &["a", "b", "c"], &["x"]));
    assert_eq!(body.len(), 2);
    assert!(same(&body[0], "Or2", &["a", "b"], &["y"]));
    assert!(same(&body[1], "Or2", &["y", "c"], &["x"]));
}

#[test]
fn arrays_expand_to_one_name_per_element() {
    let (sig, body) = parse_definition(
        b"component T(a[3:0], b[1:2], c[7]) -> (x[0:0], y) {
            a[3:0] = (b[1], b[2], c[7], _);
            (x[0], y) = a[1:0];
            Other(_[1:0], a [ 2 : 3 ]) -> ();
        }",
    )
    .unwrap();
    assert!(same(&sig, "T", &["a$3", "a$2", "a$1", "a$0", "b$1", "b$2", "c$7"], &["x$0", "y"]));
    assert_eq!(body.len(), 3);
    assert!(same(&body[0], ASSIGN, &["a$3", "a$2", "a$1", "a$0"], &["b$1", "b$2", "c$7", "_"]));
    assert!(same(&body[1], ASSIGN, &["x$0", "y"], &["a$1", "a$0"]));
    assert!(same(&body[2], "Other", &["_$1", "_$0", "a$2", "a$3"], &[]));
}

#[test]
fn comments_and_blank_space_are_skipped() {
    let all = parse_file(
        b"// two definitions\n\ncomponent A() -> () {} // first\r\n\t component B(x) -> y { // second\n y = x; // wire\n }\n// end",
    )
    .unwrap();
    assert_eq!(all.len(), 2);
    assert!(same(&all[0].0, "A", &[], &[]));
    assert!(same(&all[1].0, "B", &["x"], &["y"]));
    assert!(same(&all[1].1[0], ASSIGN, &["y"], &["x"]));
    assert_eq!(parse_file(b"").unwrap().len(), 0);
    assert_eq!(parse_file(b"  // nothing\n").unwrap().len(), 0);
}

fn syntax_error(text: &str) -> SyntaxError {
    match parse_file(text.as_bytes()) {
        Err(e) => e,
        Ok(_) => panic!("{:?} was read", text),
    }
}

#[test]
fn syntax_errors_name_the_place_and_what_was_expected() {
    let at = |position, expected| SyntaxError { position, expected };
    assert_eq!(syntax_error("comp A() -> x {}"), at(0, Expected::Component));
    assert_eq!(syntax_error("components A() -> x {}"), at(0, Expected::Component));
    assert_eq!(syntax_error("component 1() -> x {}"), at(10, Expected::Name));
    assert_eq!(syntax_error("component A -> x {}"), at(12, Expected::OpenParen));
    assert_eq!(syntax_error("component A(a b) -> x {}"), at(14, Expected::CommaOrCloseParen));
    assert_eq!(syntax_error("component A(a) x {}"), at(15, Expected::Arrow));
    assert_eq!(syntax_error("component A(a) - > x {}"), at(15, Expected::Arrow));
    assert_eq!(syntax_error("component A(a) -> x ;"), at(20, Expected::OpenBrace));
    assert_eq!(syntax_error("component A(a) -> x { x = a }"), at(28, Expected::Semicolon));
    assert_eq!(syntax_error("component A(a) -> x { x a; }"), at(24, Expected::Equals));
    assert_eq!(syntax_error("component A(a) -> x { B(a); }"), at(26, Expected::Arrow));
    assert_eq!(syntax_error("component A(a[]) -> x {}"), at(14, Expected::Number));
    assert_eq!(syntax_error("component A(a[1) -> x {}"), at(15, Expected::ColonOrCloseBracket));
    assert_eq!(syntax_error("component A(a[1:2) -> x {}"), at(17, Expected::CloseBracket));
    assert_eq!(
        syntax_error("component A(a[99999999999999999999999999]) -> x {}"),
        at(14, Expected::SmallerNumber)
    );
    assert_eq!(syntax_error("component A(a) -> x {"), at(21, Expected::Name));
    assert_eq!(
        parse_definition(b"component A() -> x {} component B() -> x {}").err(),
        Some(at(22, Expected::End))
    );
}

#[test]
fn a_syntax_error_comes_with_line_and_column() {
    match parse_str("component A(a) -> x {\n  x = a;\n  y = ;\n}") {
        Err(ParseError::Syntax { error, location }) => {
            assert_eq!(error, SyntaxError { position: 37, expected: Expected::Name });
            let location = location.unwrap();
            assert_eq!(
                location,
                Location { line: Line(3), column: Column(7), absolute: 37 }
            );
            assert_eq!(location.describe(), "line 3, col 7");
        }
        _ => panic!("expected a syntax error"),
    }
}

#[test]
fn lines_map_positions_to_lines_and_columns() {
    let lines = Lines::new(b"ab\n\ncde\n");
    assert_eq!(lines.line(Line(0)), None);
    assert_eq!(lines.line(Line(1)), Some(0));
    assert_eq!(lines.line(Line(2)), Some(3));
    assert_eq!(lines.line(Line(3)), Some(4));
    assert_eq!(lines.line(Line(4)), Some(8));
    assert_eq!(lines.line(Line(5)), None);
    assert_eq!(lines.line_number_at_byte(0), Line(1));
    assert_eq!(lines.line_number_at_byte(2), Line(1));
    assert_eq!(lines.line_number_at_byte(3), Line(2));
    assert_eq!(lines.line_number_at_byte(4), Line(3));
    assert_eq!(lines.line_number_at_byte(7), Line(3));
    assert_eq!(lines.line_number_at_byte(8), Line(4));
    assert_eq!(lines.line_number_at_byte(100), Line(4));
    assert_eq!(
        lines.location(6),
        Some(Location { line: Line(3), column: Column(3), absolute: 6 })
    );
    assert_eq!(
        lines.location(8),
        Some(Location { line: Line(4), column: Column(1), absolute: 8 })
    );
    assert_eq!(lines.location(9), None);
    let empty = Lines::new(b"");
    assert_eq!(empty.location(0), Some(Location { line: Line(1), column: Column(1), absolute: 0 }));
    assert_eq!(empty.location(1), None);
}

#[test]
fn wrong_number_of_inputs() {
    let d = r#"
component Or2(a, b) -> x {
    Nand(a) -> n_a;
    Nand(b) -> n_b;
    Nand(n_a, n_b) -> x; 
}

component Or3a(a, b, c) -> x {
    Or2(a, b, c) -> x;
}
component Or3b(a, b, c) -> x {
    Or2(a) -> x;
}
    "#;

    let pd = parse_file(d.as_bytes()).unwrap();
    let cf = ComponentFactory::new(pd);
    assert!(cf.is_err());
    assert!(matches!(
        cf,
        Err(FactoryError::Definition {
            definition: 1,
            error: CompileError::Statement {
                statement: 0,
                fault: StatementFault::WrongNumberOfInputs { expected: 2, supplied: 3 }
            }
        })
    ));

    let d = r#"
component Or2(a, b) -> x {
    Nand(a) -> n_a;
    Nand(b) -> n_b;
    Nand(n_a, n_b) -> x; 
}

component Or3(a, b, c) -> x {
    Or2(a, b) -> ab;
    Or2(ab, c) -> x;
}
    "#;
    let pd = parse_file(d.as_bytes()).unwrap();
    let cf = ComponentFactory::new(pd);
    assert!(cf.is_ok());
}

#[test]
fn redefinition() {
    let d = r#"
component Or2(a, b) -> x {
    Nand(a) -> n_a;
    Nand(b) -> n_b;
    Nand(n_a, n_b) -> x; 
}

component Or2(a, b, c) -> x {
    Nand(a, b) -> x;
}
    "#;

    let pd = parse_file(d.as_bytes()).unwrap();
    let cf = ComponentFactory::new(pd);
    assert!(cf.is_err());
}

#[test]
fn array_1d() {
    let d = r#"
component ArrayTest1D(a[3:0]) -> b[3:0] {
    a[3:0] = b[3:0];
}
    "#;

    let pd = parse_file(d.as_bytes()).unwrap();
    let cf = ComponentFactory::new(pd);
    let cf = cf.unwrap();

    let s = cf.create_named("ArrayTest1D");
    let s = s.unwrap();
    assert_eq!(s.num_inputs(), 4);
    assert_eq!(s.num_outputs(), 4);
}

#[test]
fn unconnected() {
    let d = r#"
component Add(a, b, c_in) -> (c_out, x) {
    c_out = a;
    x = b;
}

component Add2(a, b) -> (x, y) {
    Add(a, b, _) -> (_, x);
    Add(b, a, _) -> (_, y);
}

component Add4(a) -> (x, y) {
    Add(a, _[1:0]) -> (_[0:0], x);
    Add(b, _[2:1]) -> (_[0:0], y);
}

component AssignNothing(a[3:0], b[3:0]) -> x {
    a[3:0] = (_, _, _, _);
    b[3:0] = (_, _, _, _);
    x = _;
    x = a[2];
}
component AssignNothingArray(a[3:0], b[3:0]) -> x[3:0] {
    a[3:0] = _[3:0];
    b[3:0] = _[3:0];
    x[3:0] = _[3:0];
    x[3:0] = a[3:0];
}
    "#;

    let pd = parse_file(d.as_bytes()).unwrap();
    let cf = ComponentFactory::new(pd);
    assert!(!cf.is_err());
}

#[test]
fn array_port_behaves_like_four_ports() {
    let with_array = r#"
component Pass(a[3:0]) -> b[3:0] {
    Nand(a[3:0]) -> n;
    Nand(n, a[3]) -> b[3];
    b[2:0] = a[2:0];
}"#;
    let with_bits = r#"
component Pass(a3, a2, a1, a0) -> (b3, b2, b1, b0) {
    Nand(a3, a2, a1, a0) -> n;
    Nand(n, a3) -> b3;
    (b2, b1, b0) = (a2, a1, a0);
}"#;
    let mut x = parse_str(with_array).unwrap().create_named("Pass").unwrap();
    let mut y = parse_str(with_bits).unwrap().create_named("Pass").unwrap();
    for v in [[L, L, L, L], [H, H, H, H], [H, L, X, H], [X, X, L, H], [H, H, H, L]] {
        for _ in 0..4 {
            assert_eq!(x.update(&v), y.update(&v));
        }
    }
    assert_eq!(x.update(&[H, H, H, L]), vec![L, H, H, L]);
}

#[test]
fn parse_str_reports_what_the_factory_refuses() {
    assert!(matches!(
        parse_str("component A(a) -> x { B(a) -> x; }"),
        Err(ParseError::Factory(FactoryError::Definition {
            definition: 0,
            error: CompileError::Statement { statement: 0, fault: StatementFault::ComponentNotFound }
        }))
    ));
    assert!(matches!(
        parse_str("component A(a) -> x { A(a) -> x; }"),
        Err(ParseError::Factory(FactoryError::Definition {
            definition: 0,
            error: CompileError::Statement {
                statement: 0,
                fault: StatementFault::RecursiveDefinition
            }
        }))
    ));
    assert!(matches!(
        parse_str("component A(a, a) -> x { }"),
        Err(ParseError::Factory(FactoryError::DuplicatePort { definition: 0, .. }))
    ));
    assert!(parse_str("").is_ok());
}
