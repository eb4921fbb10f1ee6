use nor_hdl::design::ParseError;
use nor_hdl::parsed::{
    Connection, Instance, Operation, Wire, WireAssignment, WireKind, WirePart,
};
use nor_hdl::parsing::{
    field_name, hex_digit, hex_number, index, instance, io_binding, list, local_wire, modules,
    number, operation, range, whitespace, wire, wire_assignment, wirebus, wirepart,
};

fn names(items: &[&str]) -> Vec<String> {
    items.iter().map(|s| s.to_string()).collect()
}

fn wire_op(name: &str) -> Box<Operation> {
    Box::new(Operation::Wire(vec![WirePart::total(name)]))
}

#[test]
fn parsing_hex_digit_test() {
    assert_eq!(hex_digit("F"), Ok(("", vec![true; 4])));
    assert_eq!(hex_digit("1"), Ok(("", vec![true, false, false, false])));
    assert_eq!(hex_digit("2"), Ok(("", vec![false, true, false, false])));
    assert_eq!(hex_digit("7"), Ok(("", vec![true, true, true, false])));
}

#[test]
fn tests_hex_digit_test() {
    assert_eq!(hex_digit("F"), Ok(("", vec![true; 4])));
    assert_eq!(hex_digit("1"), Ok(("", vec![true, false, false, false])));
    assert_eq!(hex_digit("2"), Ok(("", vec![false, true, false, false])));
    assert_eq!(hex_digit("7"), Ok(("", vec![true, true, true, false])));
}

#[test]
fn parsing_hex_number_test() {
    assert_eq!(
        hex_number("0x42"),
        Ok(("", vec![false, true, false, false, false, false, true, false]))
    );
    match hex_number("0xC0FFEE") {
        Err(_) => assert!(false, "Couldn't parse 0xC0FFEE"),
        Ok((rest, num)) => {
            assert_eq!(rest, "");
            assert_eq!(num.len(), 24);
        }
    }
}

#[test]
fn tests_hex_number_test() {
    assert_eq!(
        hex_number("0x42"),
        Ok(("", vec![false, true, false, false, false, false, true, false]))
    );
    match hex_number("0xC0FFEE") {
        Err(_) => assert!(false, "Couldn't parse 0xC0FFEE"),
        Ok((rest, num)) => {
            assert_eq!(rest, "");
            assert_eq!(num.len(), 24);
        }
    }
}

#[test]
fn parsing_field_name_test() {
    assert_eq!(field_name("thisisaname"), Ok(("", "thisisaname".to_string())));
}

#[test]
fn tests_field_name_test() {
    assert_eq!(field_name("thisisaname"), Ok(("", "thisisaname".to_string())));
}

#[test]
fn parsing_number_test() {
    assert_eq!(number("1234"), Ok(("", 1234)));
    assert_eq!(number("9872 other_text 99"), Ok((" other_text 99", 9872)));
}

#[test]
fn tests_number_test() {
    assert_eq!(number("1234"), Ok(("", 1234)));
    assert_eq!(number("9872 other_text 99"), Ok((" other_text 99", 9872)));
}

#[test]
fn parsing_range_test() {
    assert_eq!(range("[5:1]"), Ok(("", (5, 1))));
}

#[test]
fn tests_range_test() {
    assert_eq!(range("[5:1]"), Ok(("", (5, 1))));
}

#[test]
fn parsing_index_test() {
    assert_eq!(index("[27]"), Ok(("", 27)));
}

#[test]
fn tests_index_test() {
    assert_eq!(index("[27]"), Ok(("", 27)));
}

#[test]
fn parsing_wirepart_test() {
    assert_eq!(wirepart("asdf "), Ok((" ", WirePart::total("asdf"))));
    assert_eq!(
        wirepart("test[1:2] other stuff"),
        Ok((" other stuff", WirePart::ranged("test", 1, 2)))
    );
}

#[test]
fn tests_wirepart_test() {
    assert_eq!(wirepart("asdf "), Ok((" ", WirePart::total("asdf"))));
    assert_eq!(
        wirepart("test[1:2] other stuff"),
        Ok((" other stuff", WirePart::ranged("test", 1, 2)))
    );
}

#[test]
fn parsing_whitespace_test() {
    assert_eq!(whitespace("  \n\t ...\n"), Ok(("...\n", "  \n\t ")));
    assert_eq!(whitespace(" word "), Ok(("word ", " ")));
}

#[test]
fn tests_whitespace_test() {
    assert_eq!(whitespace("  \n\t ...\n"), Ok(("...\n", "  \n\t ")));
    assert_eq!(whitespace(" word "), Ok(("word ", " ")));
}

#[test]
fn parsing_list_test() {
    assert_eq!(list("a, b, c", ","), Ok(("", names(&["a", "b", "c"]))));
    assert_eq!(list(")", ","), Ok((")", vec![])));
    assert_eq!(
        list("a, b), c", ","),
        Ok(("), c", vec![String::from("a"), String::from("b")]))
    );
}

#[test]
fn tests_list_test() {
    assert_eq!(list("a, b, c", ","), Ok(("", names(&["a", "b", "c"]))));
    assert_eq!(list(")", ","), Ok((")", vec![])));
    assert_eq!(
        list("a, b), c", ","),
        Ok(("), c", vec![String::from("a"), String::from("b")]))
    );
}

#[test]
fn parsing_wirebus_test() {
    assert_eq!(
        wirebus("{a, b[3:4], c[0]} "),
        Ok((
            " ",
            vec![
                WirePart::total("a"),
                WirePart::ranged("b", 3, 4),
                WirePart::ranged("c", 0, 0)
            ]
        ))
    );
}

#[test]
fn tests_wirebus_test() {
    assert_eq!(
        wirebus("{a, b[3:4], c[0]} "),
        Ok((
            " ",
            vec![
                WirePart::total("a"),
                WirePart::ranged("b", 3, 4),
                WirePart::ranged("c", 0, 0)
            ]
        ))
    );
}

#[test]
fn wirebus_repeat_test() {
    assert_eq!(
        wirebus("5 * {0}"),
        Ok(("", vec![WirePart::Constant(vec![false]); 5]))
    );
    assert_eq!(
        wirebus("3 * {0b01}"),
        Ok(("", vec![WirePart::Constant(vec![true, false]); 3]))
    );
}

#[test]
fn parsing_wire_test() {
    assert_eq!(
        wire("peter[5]"),
        Ok(("", Wire { name: "peter".to_string(), width: 5, kind: WireKind::Private }))
    );
    assert_eq!(
        wire("hans "),
        Ok((" ", Wire { name: "hans".to_string(), width: 1, kind: WireKind::Private }))
    );
}

#[test]
fn tests_wire_test() {
    assert_eq!(
        wire("peter[5]"),
        Ok(("", Wire { name: "peter".to_string(), width: 5, kind: WireKind::Private }))
    );
    assert_eq!(
        wire("hans "),
        Ok((" ", Wire { name: "hans".to_string(), width: 1, kind: WireKind::Private }))
    );
}

#[test]
fn parsing_local_wire_test() {
    assert_eq!(
        local_wire("wire rudolf; ..."),
        Ok((" ...", vec![Wire { name: "rudolf".to_string(), width: 1, kind: WireKind::Private }]))
    );
    assert_eq!(
        local_wire("wire stefan[278];"),
        Ok(("", vec![Wire { name: "stefan".to_string(), width: 278, kind: WireKind::Private }]))
    );
}

#[test]
fn tests_local_wire_test() {
    assert_eq!(
        local_wire("wire rudolf; ..."),
        Ok((" ...", vec![Wire { name: "rudolf".to_string(), width: 1, kind: WireKind::Private }]))
    );
    assert_eq!(
        local_wire("wire stefan[278];"),
        Ok(("", vec![Wire { name: "stefan".to_string(), width: 278, kind: WireKind::Private }]))
    );
}

#[test]
fn assignment_test() {
    assert_eq!(
        io_binding("a=b"),
        Ok(("", Connection { module: "a".to_string(), local: vec![WirePart::total("b")] }))
    );
    assert_eq!(
        io_binding("a = {c[2], d[1:4], f}"),
        Ok((
            "",
            Connection {
                module: "a".to_string(),
                local: vec![
                    WirePart::ranged("c", 2, 2),
                    WirePart::ranged("d", 1, 4),
                    WirePart::total("f")
                ]
            }
        ))
    );
}

#[test]
fn io_binding_test() {
    assert_eq!(
        io_binding("a=b"),
        Ok(("", Connection { module: "a".to_string(), local: vec![WirePart::total("b")] }))
    );
    assert_eq!(
        io_binding("a = {c[2], d[1:4], f}"),
        Ok((
            "",
            Connection {
                module: "a".to_string(),
                local: vec![
                    WirePart::ranged("c", 2, 2),
                    WirePart::ranged("d", 1, 4),
                    WirePart::total("f")
                ]
            }
        ))
    );
}

#[test]
fn tests_instance_test() {
    assert_eq!(
        instance("Nor inv(a=in, b=in) -> (out=out);"),
        Ok((
            "",
            Instance {
                module: "Nor".to_string(),
                name: "inv".to_string(),
                inputs: vec![
                    Connection { module: "a".to_string(), local: vec![WirePart::total("in")] },
                    Connection { module: "b".to_string(), local: vec![WirePart::total("in")] },
                ],
                outputs: vec![Connection {
                    module: "out".to_string(),
                    local: vec![WirePart::total("out")]
                }],
            }
        ))
    );
}

#[test]
fn operation_parentheses_test() {
    assert_eq!(operation("(a)"), Ok(("", Operation::Wire(vec![WirePart::total("a")]))));
}

#[test]
fn binary_operation_test() {
    assert_eq!(operation("a & b"), Ok(("", Operation::And(wire_op("a"), wire_op("b")))));
}

#[test]
fn binary_paren_operation_test() {
    assert_eq!(
        operation("(a | b) & (c ^ d)"),
        Ok((
            "",
            Operation::And(
                Box::new(Operation::Or(wire_op("a"), wire_op("b"))),
                Box::new(Operation::Xor(wire_op("c"), wire_op("d")))
            )
        ))
    );
}

#[test]
fn unary_operation_test() {
    assert_eq!(
        operation("&(a | b)"),
        Ok((
            "",
            Operation::AndReduce(Box::new(Operation::Or(wire_op("a"), wire_op("b"))))
        ))
    );
}

#[test]
fn wire_assignment_test() {
    assert_eq!(
        wire_assignment("wire[5:10] = (!in1[0:5] | in2) & in3;"),
        Ok((
            "",
            WireAssignment {
                bus: vec![WirePart::ranged("wire", 5, 10)],
                operation: Operation::And(
                    Box::new(Operation::Or(
                        Box::new(Operation::Not(Box::new(Operation::Wire(vec![
                            WirePart::ranged("in1", 0, 5)
                        ])))),
                        wire_op("in2")
                    )),
                    wire_op("in3"),
                ),
            }
        ))
    );
}

#[test]
#[should_panic]
fn unparsed_module_causes_error_test() {
    // causes error because module names need to be uppercase
    modules("module mod() -> () {}").unwrap();
}

#[test]
fn lower_case_module_name_is_a_syntax_error() {
    assert_eq!(modules("module mod() -> () {}"), Err(ParseError::Syntax));
    assert!(instance("nor inv(a=in, b=in) -> (out=out);").is_err());
}

#[test]
fn number_that_does_not_fit_is_refused() {
    assert!(number("99999999999999999999999999").is_err());
    assert_eq!(number("18446744073709551615x").map(|r| r.0), Ok("x"));
}

#[test]
fn comment_is_white_space_up_to_the_line_end() {
    assert_eq!(whitespace("  // note\nnext"), Ok(("\nnext", "  ")));
    assert_eq!(whitespace("  // no line end"), Ok(("// no line end", "  ")));
}

#[test]
fn binary_constant_is_little_endian() {
    assert_eq!(wirepart("0b0011"), Ok(("", WirePart::Constant(vec![true, true, false, false]))));
    assert_eq!(wirepart("10"), Ok(("", WirePart::Constant(vec![false, true]))));
}

#[test]
fn part_repetition_expands() {
    assert_eq!(
        wirebus("{2 * a, b[1]}"),
        Ok((
            "",
            vec![WirePart::total("a"), WirePart::total("a"), WirePart::ranged("b", 1, 1)]
        ))
    );
    assert_eq!(
        wirebus("2 * {a, b}"),
        Ok((
            "",
            vec![
                WirePart::total("a"),
                WirePart::total("b"),
                WirePart::total("a"),
                WirePart::total("b")
            ]
        ))
    );
}

#[test]
fn reductions_and_negation_bind_to_the_operand() {
    assert_eq!(
        operation("!a & ^b"),
        Ok((
            "",
            Operation::And(
                Box::new(Operation::Not(wire_op("a"))),
                Box::new(Operation::XorReduce(wire_op("b")))
            )
        ))
    );
    assert_eq!(operation("|a"), Ok(("", Operation::OrReduce(wire_op("a")))));
}

#[test]
fn module_with_ports_wires_and_instances() {
    let source = "module Not(in) -> (out) {\n  // one gate\n  Nor inv(a=in, b=in) -> (out);\n}\n";
    let (rest, mods) = modules(source).unwrap();
    assert_eq!(rest, "");
    assert_eq!(mods.len(), 1);
    assert_eq!(mods[0].name, "Not");
    assert_eq!(
        mods[0].locals,
        vec![
            Wire { name: "in".to_string(), width: 1, kind: WireKind::Input },
            Wire { name: "out".to_string(), width: 1, kind: WireKind::Output },
        ]
    );
    assert_eq!(mods[0].instances.len(), 1);
    assert_eq!(mods[0].instances[0].module, "Nor");
    assert_eq!(mods[0].instances[0].outputs[0].local, vec![WirePart::total("out")]);
}

#[test]
fn assignment_with_unequal_operands_is_a_width_error() {
    let source = "module Top(a[2], b[3]) -> (c[2]) { c = a & b; }";
    assert_eq!(modules(source), Err(ParseError::Width));
}
