use nor_hdl::assemble::{build, can_build};
use nor_hdl::design::ParseError;
use nor_hdl::interact::{get_description, get_value, get_width, set_value, simulate};
use nor_hdl::link_error::ErrorKind;
use nor_hdl::net::Simulation;
use nor_hdl::netgraph::GraphModule;
use nor_hdl::parsing::modules;

const GATES: &str = "
module Nor(a, b) -> (out) {}
module Not(in) -> (out) { Nor inv(a=in, b=in) -> (out); }
module Buffer(in) -> (out) { wire n; Not x(in) -> (out=n); Not y(in=n) -> (out); }
module Or(a, b) -> (out) { wire n; Nor g(a, b) -> (out=n); Not i(in=n) -> (out); }
module And(a, b) -> (out) {
    wire na, nb;
    Not x(in=a) -> (out=na);
    Not y(in=b) -> (out=nb);
    Nor g(a=na, b=nb) -> (out);
}
module Xor(a, b) -> (out) {
    wire both, neither;
    And x(a, b) -> (out=both);
    Nor y(a, b) -> (out=neither);
    Nor z(a=both, b=neither) -> (out);
}
";

fn elaborate(top: &str) -> Result<(GraphModule, Simulation), ErrorKind> {
    let source = format!("{}{}", GATES, top);
    let (_, mods) = modules(&source).unwrap();
    assert!(can_build(&mods));
    build(mods).map_err(|e| e.kind)
}

fn settle(sim: &mut Simulation) {
    assert!(simulate(sim, 0));
}

#[test]
fn inverter_follows_its_input() {
    let (graph, mut sim) =
        elaborate("module Top(x) -> () { wire y; Not n(in=x) -> (out=y); }").unwrap();
    assert_eq!(set_value(&mut sim, &graph, "x", &[true]).ok(), Some(true));
    settle(&mut sim);
    assert_eq!(get_value(&sim, &graph, "y"), vec![false]);
    assert_eq!(set_value(&mut sim, &graph, "x", &[false]).ok(), Some(true));
    settle(&mut sim);
    assert_eq!(get_value(&sim, &graph, "y"), vec![true]);
}

#[test]
fn undriven_private_wire_is_refused() {
    let r = elaborate("module Top() -> () { wire x, y; Not n(in=x) -> (out=y); }");
    assert_eq!(r.err(), Some(ErrorKind::NoDriver));
}

#[test]
fn sr_latch_holds_state() {
    let (graph, mut sim) = elaborate(
        "module Top(s, r) -> () { wire q, nq; Nor a(a=r, b=nq) -> (out=q); Nor b(a=s, b=q) -> (out=nq); }",
    )
    .unwrap();
    settle(&mut sim);
    set_value(&mut sim, &graph, "s", &[true]).unwrap();
    set_value(&mut sim, &graph, "r", &[false]).unwrap();
    settle(&mut sim);
    assert_eq!(get_value(&sim, &graph, "q"), vec![true]);
    assert_eq!(get_value(&sim, &graph, "nq"), vec![false]);
    set_value(&mut sim, &graph, "s", &[false]).unwrap();
    settle(&mut sim);
    assert_eq!(get_value(&sim, &graph, "q"), vec![true]);
    assert_eq!(get_value(&sim, &graph, "nq"), vec![false]);
    set_value(&mut sim, &graph, "r", &[true]).unwrap();
    set_value(&mut sim, &graph, "s", &[false]).unwrap();
    settle(&mut sim);
    assert_eq!(get_value(&sim, &graph, "q"), vec![false]);
    assert_eq!(get_value(&sim, &graph, "nq"), vec![true]);
}

#[test]
fn nor_truth_table() {
    for a in [false, true] {
        for b in [false, true] {
            let (graph, mut sim) =
                elaborate("module Top(a, b) -> (out) { Nor g(a, b) -> (out); }").unwrap();
            set_value(&mut sim, &graph, "a", &[a]).unwrap();
            set_value(&mut sim, &graph, "b", &[b]).unwrap();
            settle(&mut sim);
            assert_eq!(get_value(&sim, &graph, "out"), vec![!(a || b)]);
        }
    }
}

fn reduce_case(sign: &str, width: usize, fold: fn(bool, bool) -> bool) {
    let top = format!("module Top(in[{}]) -> (out) {{ out = {}in; }}", width, sign);
    for pattern in 0..(1usize << width) {
        let (graph, mut sim) = elaborate(&top).unwrap();
        let bits: Vec<bool> = (0..width).map(|k| (pattern >> k) & 1 == 1).collect();
        set_value(&mut sim, &graph, "in", &bits).unwrap();
        settle(&mut sim);
        let expected = bits.iter().skip(1).fold(bits[0], |acc, b| fold(acc, *b));
        assert_eq!(get_value(&sim, &graph, "out"), vec![expected]);
    }
}

#[test]
fn reductions_fold_all_bits() {
    for width in 1..=5 {
        reduce_case("&", width, |a, b| a && b);
        reduce_case("|", width, |a, b| a || b);
        reduce_case("^", width, |a, b| a != b);
    }
}

#[test]
fn four_bit_and_reduce_is_a_balanced_tree() {
    let source = "module Top(in[4]) -> (out) { out = &in; }";
    let (_, mods) = modules(source).unwrap();
    let top = &mods[0];
    let gates: Vec<(&str, &str)> =
        top.instances.iter().map(|i| (i.module.as_str(), i.name.as_str())).collect();
    assert_eq!(gates, vec![("And", "gen_1"), ("And", "gen_3"), ("And", "gen_4")]);
    let names: Vec<&str> = top.locals.iter().map(|w| w.name.as_str()).collect();
    assert_eq!(names, vec!["in", "out", "gen_0", "gen_2"]);
    let reads = |i: usize| -> Vec<String> {
        top.instances[i].inputs.iter().map(|c| format!("{:?}", c.local)).collect()
    };
    assert!(reads(0)[0].contains("from: 0, to: 0") && reads(0)[1].contains("from: 1, to: 1"));
    assert!(reads(1)[0].contains("from: 2, to: 2") && reads(1)[1].contains("from: 3, to: 3"));
    assert!(reads(2)[0].contains("gen_0") && reads(2)[1].contains("gen_2"));
}

#[test]
fn five_bit_reduce_splits_two_and_three() {
    let source = "module Top(x[5]) -> (out) { out = &x; }";
    let (_, mods) = modules(source).unwrap();
    let top = &mods[0];
    assert_eq!(top.instances.len(), 4);
    assert!(top.instances.iter().all(|i| i.module == "And"));
    let first: Vec<String> =
        top.instances[0].inputs.iter().map(|c| format!("{:?}", c.local)).collect();
    assert!(first[0].contains("from: 0, to: 0") && first[1].contains("from: 1, to: 1"));
    let second: Vec<String> =
        top.instances[1].inputs.iter().map(|c| format!("{:?}", c.local)).collect();
    assert!(second[0].contains("from: 3, to: 3") && second[1].contains("from: 4, to: 4"));
    let third: Vec<String> =
        top.instances[2].inputs.iter().map(|c| format!("{:?}", c.local)).collect();
    assert!(third[0].contains("from: 2, to: 2"));
}

#[test]
fn recursion_is_refused() {
    let r = elaborate(
        "module A() -> () { B b() -> (); }
         module B() -> () { A a() -> (); }
         module Top() -> () { A a() -> (); }",
    );
    assert_eq!(r.err(), Some(ErrorKind::Recursion));
}

#[test]
fn recursion_names_the_module_that_is_entered_again() {
    let source = format!(
        "{}module A() -> () {{ B b() -> (); }} module B() -> () {{ A a() -> (); }} module Top() -> () {{ A a() -> (); }}",
        GATES
    );
    let (_, mods) = modules(&source).unwrap();
    let e = build(mods).err().unwrap();
    assert_eq!(e.description, "Module 'A' has a recursive definition.");
}

#[test]
fn two_drivers_are_refused() {
    let source = format!(
        "{}module Top(y) -> () {{ wire x; Nor a(a=y, b=y) -> (out=x); Nor b(a=y, b=y) -> (out=x); }}",
        GATES
    );
    let (_, mods) = modules(&source).unwrap();
    let e = build(mods).err().unwrap();
    assert_eq!(e.kind, ErrorKind::MultipleDrivers);
    assert_eq!(
        e.description,
        "wire 'x[0]' in module 'Top' is being driven 2 times, expected 1 times."
    );
}

#[test]
fn hex_constant_reaches_the_output() {
    let (graph, mut sim) =
        elaborate("module Top() -> (out[8]) { out[0:7] = 0x42; }").unwrap();
    settle(&mut sim);
    assert_eq!(
        get_value(&sim, &graph, "out"),
        vec![false, true, false, false, false, false, true, false]
    );
}

#[test]
fn range_with_the_high_bit_first_is_refused() {
    assert_eq!(
        modules("module Top() -> (out[8]) { out[7:0] = 0x42; }"),
        Err(ParseError::Width)
    );
}

#[test]
fn each_link_error_has_an_input() {
    let kind = |top: &str| elaborate(top).err();
    assert_eq!(
        kind("module Top() -> () { wire x; wire x; }"),
        Some(ErrorKind::DuplicateWireName)
    );
    assert_eq!(
        kind("module Top(y) -> () { wire x; Missing m(in=y) -> (out=x); }"),
        Some(ErrorKind::UnknownModule)
    );
    assert_eq!(
        kind("module Top(y) -> () { wire x; Not n(in=z) -> (out=x); }"),
        Some(ErrorKind::UnknownWire)
    );
    assert_eq!(
        kind("module Top(y) -> () { wire x; Not n(nope=y) -> (out=x); }"),
        Some(ErrorKind::UnknownWire)
    );
    assert_eq!(
        kind("module Top(y) -> () { wire x; Not n(out=y) -> (in=x); }"),
        Some(ErrorKind::IncorrectWireKind)
    );
    assert_eq!(
        kind("module Top(y[2]) -> () { wire x; Not n(in=y) -> (out=x); }"),
        Some(ErrorKind::MismatchedWireSize)
    );
    assert_eq!(
        kind("module Top(y[2]) -> () { wire x; Not n(in=y[2]) -> (out=x); }"),
        Some(ErrorKind::MismatchedWireSize)
    );
    assert_eq!(
        kind("module Top(y) -> () { wire x; Not n() -> (out=x); }"),
        Some(ErrorKind::MissingIOWires)
    );
    assert_eq!(
        kind("module Top(y) -> () { Not n(in=y) -> (out=y); }"),
        Some(ErrorKind::MultipleDrivers)
    );
    assert_eq!(kind("module Top() -> (x) { }"), Some(ErrorKind::NoDriver));
}

#[test]
fn paths_descend_through_instances() {
    let (graph, mut sim) =
        elaborate("module Top(x) -> () { wire y[1]; Buffer b(in=x) -> (out=y); }").unwrap();
    set_value(&mut sim, &graph, "x", &[true]).unwrap();
    settle(&mut sim);
    assert_eq!(get_value(&sim, &graph, "b.n"), vec![false]);
    assert_eq!(get_value(&sim, &graph, "b.out"), vec![true]);
    assert_eq!(get_value(&sim, &graph, "b.x.inv.out"), vec![false]);
    assert_eq!(get_width(&graph, "b.x.inv.a"), 1);
    assert_eq!(get_width(&graph, "b"), 0);
    assert_eq!(get_width(&graph, ""), 0);
    assert_eq!(get_width(&graph, "nothing"), 0);
    assert_eq!(get_value(&sim, &graph, "b.nothing"), Vec::<bool>::new());
    assert_eq!(get_value(&sim, &graph, "x.y"), Vec::<bool>::new());
}

#[test]
fn address_has_the_width_of_the_wire() {
    let (graph, _) =
        elaborate("module Top(x[3]) -> (y[3]) { y = x; }").unwrap();
    for name in ["x", "y", "gen_0.in", "gen_2.y.inv.out"] {
        let path: Vec<String> = name.split('.').map(|s| s.to_string()).collect();
        let addr = graph.wire_addr(&path).unwrap();
        assert_eq!(addr.len() as u64, graph.wire_width(&path).unwrap());
        assert_eq!(get_width(&graph, name), addr.len() as u64);
    }
    assert_eq!(graph.wire_addr(&["x".to_string()]).unwrap(), vec![0, 1, 2]);
    assert_eq!(graph.wire_addr(&["y".to_string()]).unwrap(), vec![3, 4, 5]);
}

#[test]
fn instance_takes_precedence_over_wire_of_the_same_name() {
    let (graph, _) =
        elaborate("module Top(x) -> () { wire n; Not n(in=x) -> (out=n); }").unwrap();
    assert!(graph.wire_addr(&["n".to_string()]).is_err());
    assert_eq!(get_width(&graph, "n.out"), 1);
    assert!(get_description(&elaborate("module Top(x) -> () { wire n; Not n(in=x) -> (out=n); }").unwrap().1, &graph, "n")
        .starts_with("Not::n\n"));
}

#[test]
fn display_renders_modules_and_wires() {
    let (graph, mut sim) =
        elaborate("module Top(x[2]) -> () { wire y; Nor g(a=x[0], b=x[1]) -> (out=y); }").unwrap();
    set_value(&mut sim, &graph, "x", &[true, false]).unwrap();
    settle(&mut sim);
    assert_eq!(
        get_description(&sim, &graph, ""),
        "Top::<root>\n  Wires:\n    x: 0b01\n    y: 0b0\n  Instances:\n    Nor::g\n\n"
    );
    assert_eq!(get_description(&sim, &graph, "x"), "    x: 0b01");
    assert_eq!(
        get_description(&sim, &graph, "g"),
        "Nor::g\n  Wires:\n    a: 0b1\n    b: 0b0\n    out: 0b0\n  Instances:\n    <none>\n\n"
    );
    assert_eq!(
        get_description(&sim, &graph, "h"),
        "Error: InvalidPath(\"No field with name 'h' in module '<root>'\")"
    );
}

#[test]
fn short_write_keeps_the_other_bits() {
    let (graph, mut sim) =
        elaborate("module Top(x[3]) -> () { wire y; Nor g(a=x[0], b=x[1]) -> (out=y); }").unwrap();
    assert_eq!(set_value(&mut sim, &graph, "x", &[true, true, true]).ok(), Some(true));
    assert_eq!(set_value(&mut sim, &graph, "x", &[false]).ok(), Some(false));
    assert_eq!(get_value(&sim, &graph, "x"), vec![false, true, true]);
    assert_eq!(set_value(&mut sim, &graph, "x", &[false, false, false, true]).ok(), Some(true));
    assert_eq!(get_value(&sim, &graph, "x"), vec![false, false, false]);
    assert!(set_value(&mut sim, &graph, "nope", &[true]).is_err());
}

#[test]
fn bounded_run_stops_at_the_budget() {
    let (_, mut sim) =
        elaborate("module Top(x) -> () { wire y; Buffer b(in=x) -> (out=y); }").unwrap();
    assert!(!sim.is_stable());
    assert!(!simulate(&mut sim, 1));
    assert!(simulate(&mut sim, 0));
    assert!(simulate(&mut sim, 5));
}

#[test]
fn oscillator_never_settles() {
    let (_, mut sim) = elaborate("module Top() -> () { wire x; Not n(in=x) -> (out=x); }").unwrap();
    assert!(!simulate(&mut sim, 1000));
}

#[test]
fn modules_without_top_cannot_be_built() {
    let (_, mods) = modules("module Nor(a, b) -> (out) {}").unwrap();
    assert!(!can_build(&mods));
    let (_, twice) = modules("module Top() -> () {} module Top() -> () {}").unwrap();
    assert!(!can_build(&twice));
    let (_, odd) = modules("module Top() -> () {} module Nor(a) -> (out) {}").unwrap();
    assert!(!can_build(&odd));
}
