use nor_hdl::assemble::module_map;
use nor_hdl::assignment::{index_bus, slice_bus, Resolver};
use nor_hdl::link::Linker;
use nor_hdl::link_error::{ErrorKind, LinkError};
use nor_hdl::net::Net;
use nor_hdl::parsed::{
    Module, Operation, Wire, WireAssignment, WireKind, WirePart, WireRange,
};
use nor_hdl::parsing::{binary_number, modules, module_name, path, wire_constant};

fn wire(name: &str, width: usize, kind: WireKind) -> Wire {
    Wire { name: name.to_string(), width, kind }
}

fn module(locals: Vec<Wire>) -> Module {
    Module { name: "M".to_string(), locals, instances: vec![] }
}

fn bus(name: &str) -> Box<Operation> {
    Box::new(Operation::Wire(vec![WirePart::total(name)]))
}

#[test]
fn part_constructors() {
    assert_eq!(
        WirePart::total("a"),
        WirePart::Local { name: "a".to_string(), range: WireRange::Total }
    );
    assert_eq!(
        WirePart::ranged("a", 2, 5),
        WirePart::Local { name: "a".to_string(), range: WireRange::Ranged { from: 2, to: 5 } }
    );
    assert_eq!(WirePart::constant(vec![true]), WirePart::Constant(vec![true]));
}

#[test]
fn part_widths() {
    let m = module(vec![wire("a", 4, WireKind::Input), wire("b", 1, WireKind::Private)]);
    assert_eq!(WirePart::total("a").width(&m), Ok(4));
    assert_eq!(WirePart::total("b").width(&m), Ok(1));
    assert_eq!(WirePart::total("c").width(&m), Err(()));
    assert_eq!(WirePart::ranged("a", 1, 3).width(&m), Ok(3));
    assert_eq!(WirePart::ranged("nothing", 7, 7).width(&m), Ok(1));
    assert_eq!(WirePart::ranged("a", 3, 1).width(&m), Err(()));
    assert_eq!(WirePart::ranged("a", 0, usize::MAX).width(&m), Err(()));
    assert_eq!(WirePart::constant(vec![true, false, true]).width(&m), Ok(3));
    assert_eq!(WirePart::constant(vec![]).width(&m), Ok(0));
}

#[test]
fn operation_widths() {
    let m = module(vec![wire("a", 4, WireKind::Input), wire("b", 4, WireKind::Input), wire("c", 2, WireKind::Input)]);
    let concat = Operation::Wire(vec![WirePart::total("a"), WirePart::ranged("c", 0, 0)]);
    assert_eq!(concat.width(&m), Ok(5));
    assert_eq!(Operation::And(bus("a"), bus("b")).width(&m), Ok(4));
    assert_eq!(Operation::Or(bus("a"), bus("c")).width(&m), Err(()));
    assert_eq!(Operation::Xor(bus("a"), bus("zz")).width(&m), Err(()));
    assert_eq!(Operation::Not(bus("c")).width(&m), Ok(2));
    assert_eq!(Operation::AndReduce(bus("a")).width(&m), Ok(1));
    assert_eq!(Operation::OrReduce(bus("zz")).width(&m), Err(()));
    assert_eq!(Operation::XorReduce(Box::new(Operation::And(bus("a"), bus("b")))).width(&m), Ok(1));
    let copy = Operation::And(bus("a"), bus("b")).clone();
    assert_eq!(copy, Operation::And(bus("a"), bus("b")));
}

#[test]
fn bits_of_a_bus() {
    let m = module(vec![wire("a", 2, WireKind::Input)]);
    let b = vec![
        WirePart::total("a"),
        WirePart::constant(vec![false, true]),
        WirePart::ranged("a", 1, 1),
    ];
    assert_eq!(index_bus(&m, &b, 0), Ok(vec![WirePart::ranged("a", 0, 0)]));
    assert_eq!(index_bus(&m, &b, 1), Ok(vec![WirePart::ranged("a", 1, 1)]));
    assert_eq!(index_bus(&m, &b, 3), Ok(vec![WirePart::constant(vec![true])]));
    assert_eq!(index_bus(&m, &b, 4), Ok(vec![WirePart::ranged("a", 1, 1)]));
    assert_eq!(index_bus(&m, &b, 5), Err(()));
    let (low, high) = slice_bus(&m, &b).unwrap();
    assert_eq!(low, vec![WirePart::ranged("a", 0, 0), WirePart::ranged("a", 1, 1)]);
    assert_eq!(high.len(), 3);
    assert_eq!(high[0], WirePart::constant(vec![false]));
}

#[test]
fn assignment_of_a_bus_becomes_buffers() {
    let mut m = module(vec![wire("a", 2, WireKind::Input), wire("b", 2, WireKind::Output)]);
    let mut resolver = Resolver::new(&mut m);
    let done = resolver.resolve_assignments(vec![WireAssignment {
        bus: vec![WirePart::total("b")],
        operation: Operation::Wire(vec![WirePart::total("a")]),
    }]);
    assert_eq!(done, Ok(()));
    assert_eq!(resolver.counter, 2);
    assert_eq!(m.locals.len(), 2);
    assert_eq!(m.instances.len(), 2);
    for (i, inst) in m.instances.iter().enumerate() {
        assert_eq!(inst.module, "Buffer");
        assert_eq!(inst.name, format!("gen_{}", i));
        assert_eq!(inst.inputs.len(), 1);
        assert_eq!(inst.inputs[0].module, "in");
        assert_eq!(inst.inputs[0].local, vec![WirePart::ranged("a", i, i)]);
        assert_eq!(inst.outputs[0].module, "out");
        assert_eq!(inst.outputs[0].local, vec![WirePart::ranged("b", i, i)]);
    }
}

#[test]
fn operands_get_temporary_wires() {
    let mut m = module(vec![
        wire("a", 2, WireKind::Input),
        wire("b", 2, WireKind::Input),
        wire("c", 2, WireKind::Output),
    ]);
    let mut resolver = Resolver::new(&mut m);
    let op = Operation::Not(Box::new(Operation::Xor(bus("a"), bus("b"))));
    assert_eq!(
        resolver.resolve_assignments(vec![WireAssignment {
            bus: vec![WirePart::total("c")],
            operation: op
        }]),
        Ok(())
    );
    assert_eq!(m.locals.len(), 4);
    assert_eq!(m.locals[3], wire("gen_0", 2, WireKind::Private));
    let kinds: Vec<&str> = m.instances.iter().map(|i| i.module.as_str()).collect();
    assert_eq!(kinds, vec!["Xor", "Xor", "Not", "Not"]);
    assert_eq!(m.instances[0].inputs[0].module, "a");
    assert_eq!(m.instances[0].inputs[1].module, "b");
    assert_eq!(m.instances[1].outputs[0].local, vec![WirePart::ranged("gen_0", 1, 1)]);
    assert_eq!(m.instances[3].name, "gen_4");
}

#[test]
fn reduction_of_nothing_and_unequal_operands_fail() {
    let mut m = module(vec![wire("a", 2, WireKind::Input), wire("c", 1, WireKind::Output)]);
    let mut resolver = Resolver::new(&mut m);
    let empty = Operation::AndReduce(Box::new(Operation::Wire(vec![])));
    assert_eq!(
        resolver.resolve_assignments(vec![WireAssignment {
            bus: vec![WirePart::total("c")],
            operation: empty
        }]),
        Err(())
    );
    let mut n = module(vec![wire("a", 2, WireKind::Input), wire("c", 1, WireKind::Output)]);
    let mut resolver = Resolver::new(&mut n);
    let uneven = Operation::And(bus("a"), bus("c"));
    assert_eq!(
        resolver.resolve_assignments(vec![WireAssignment {
            bus: vec![WirePart::total("c")],
            operation: uneven
        }]),
        Err(())
    );
}

#[test]
fn linker_places_private_wires_in_source_order() {
    let source = "module Nor(a, b) -> (out) {}
        module Top(x[2]) -> () { wire y[3], z; Nor g(a=x[0], b=x[1]) -> (out=z);
        Nor h(a=z, b=z) -> (out=y[0]); Nor i(a=z, b=z) -> (out=y[1]); Nor j(a=z, b=z) -> (out=y[2]); }";
    let (_, mods) = modules(source).unwrap();
    let top = mods[1].clone();
    let table = module_map(mods);
    let mut net = Net::new();
    let first = net.allocate_wire(2);
    let mut wires = vec![vec![first, first + 1], vec![], vec![]];
    let mut descent = Vec::new();
    let graph = {
        let mut linker = Linker::new(&top, &mut wires, &table, &mut descent, &mut net).ok().unwrap();
        linker.link().ok().unwrap()
    };
    assert_eq!(wires, vec![vec![0, 1], vec![2, 3, 4], vec![5]]);
    assert!(descent.is_empty());
    assert_eq!(net.wire_count(), 6);
    assert_eq!(net.gate_count(), 4);
    assert_eq!(net.gate(0), (0, 1, 5));
    assert_eq!(net.gate(3), (5, 5, 4));
    assert_eq!(graph.module_name, "Top");
    assert_eq!(graph.name, "<root>");
    assert_eq!(graph.locals[1].name, "y");
    assert_eq!(graph.locals[1].values, vec![2, 3, 4]);
    assert_eq!(graph.instances.len(), 4);
    assert_eq!(graph.instances[0].name, "g");
    assert_eq!(graph.instances[0].module_name, "Nor");
    assert_eq!(graph.instances[0].locals[2].name, "out");
    assert_eq!(graph.instances[0].locals[2].values, vec![5]);
}

#[test]
fn linker_refuses_a_module_on_the_stack_before_its_wires() {
    let source = "module Top() -> () { wire x; wire x; }";
    let (_, mods) = modules(source).unwrap();
    let top = mods[0].clone();
    let table = module_map(mods);
    let mut net = Net::new();
    let mut wires = vec![vec![], vec![]];
    let mut descent = vec!["Top".to_string()];
    let e = Linker::new(&top, &mut wires, &table, &mut descent, &mut net).err().unwrap();
    assert_eq!(e.kind, ErrorKind::Recursion);
    assert_eq!(e.description, "Module 'Top' has a recursive definition.");
    let mut empty = Vec::new();
    let e = Linker::new(&top, &mut wires, &table, &mut empty, &mut net).err().unwrap();
    assert_eq!(e.kind, ErrorKind::DuplicateWireName);
    assert_eq!(e.description, "Wire 'x' is being defined multiple times.");
}

#[test]
fn link_error_constructor() {
    let r: Result<(), LinkError> = LinkError::new(ErrorKind::NoDriver, "nothing".to_string());
    let e = r.err().unwrap();
    assert_eq!(e.kind, ErrorKind::NoDriver);
    assert_eq!(e.description, "nothing");
}

#[test]
fn constants_in_both_notations() {
    assert_eq!(wire_constant("0x1f rest"), Ok((" rest", vec![true, true, true, true, true, false, false, false])));
    assert_eq!(wire_constant("0b10"), Ok(("", vec![false, true])));
    assert_eq!(wire_constant("011"), Ok(("", vec![true, true, false])));
    assert_eq!(wire_constant("0xg").map(|r| r.0), Ok("xg"));
    assert!(wire_constant("x").is_err());
    assert_eq!(binary_number("0b0001"), Ok(("", vec![true, false, false, false])));
    assert!(binary_number("0b2").is_err());
    assert!(binary_number("2").is_err());
}

#[test]
fn names_and_paths() {
    assert_eq!(module_name("Top9_x"), Ok(("_x", "Top9".to_string())));
    assert!(module_name("top").is_err());
    assert_eq!(path("a.b_1 . c9"), vec!["a".to_string(), "b_1".to_string(), "c9".to_string()]);
    assert_eq!(path("a.b rest"), vec!["a".to_string(), "b".to_string()]);
    assert_eq!(path(""), Vec::<String>::new());
    assert_eq!(path("9"), Vec::<String>::new());
}

#[test]
fn tree_lies_within_its_netlist() {
    let source = "module Nor(a, b) -> (out) {}
        module Top(x) -> () { wire y; Nor g(a=x, b=x) -> (out=y); }";
    let (_, mods) = modules(source).unwrap();
    let (graph, sim) = nor_hdl::assemble::build(mods).ok().unwrap();
    assert_eq!(sim.wire_count(), 2);
    assert!(graph.lies_within(2));
    assert!(graph.lies_within(3));
    assert!(!graph.lies_within(1));
    assert!(!graph.lies_within(0));
}
