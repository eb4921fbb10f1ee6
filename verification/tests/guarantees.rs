use nor_hdl::assemble::{build, can_build};
use nor_hdl::interact::{set_value, simulate};
use nor_hdl::net::{Net, Simulation};
use nor_hdl::netgraph::GraphModule;
use nor_hdl::parsing::modules;

const GATES: &str = "
module Nor(a, b) -> (out) {}
module Not(in) -> (out) { Nor inv(a=in, b=in) -> (out); }
module Buffer(in) -> (out) { wire n; Not x(in) -> (out=n); Not y(in=n) -> (out); }
";

fn design(top: &str) -> (GraphModule, Simulation) {
    let source = format!("{}{}", GATES, top);
    let (_, mods) = modules(&source).unwrap();
    assert!(can_build(&mods));
    build(mods).ok().unwrap()
}

fn drivers(sim: &Simulation) -> Vec<usize> {
    let mut count = vec![0usize; sim.wire_count()];
    for g in 0..sim.gate_count() {
        let (a, b, out) = sim.gate(g);
        assert!(a < sim.wire_count() && b < sim.wire_count());
        count[out] += 1;
    }
    count
}

fn events_until_stable(sim: &mut Simulation, cap: usize) -> usize {
    let mut events = 0;
    while !sim.is_stable() {
        assert!(events < cap);
        sim.update();
        events += 1;
    }
    events
}

fn inverter_chain(order: &[usize]) -> Simulation {
    let count = order.len();
    let mut net = Net::new();
    let first = net.allocate_wire(count + 1);
    assert_eq!(first, 0);
    for &stage in order {
        net.create_nor(stage, stage, stage + 1);
    }
    assert_eq!(net.gate_count(), count);
    assert_eq!(net.wire_count(), count + 1);
    Simulation::new(net)
}

#[test]
fn netlist_holds_ports_private_wires_and_constants() {
    let (_, sim) = design("module Top(x) -> () { wire y; Not n(in=x) -> (out=y); }");
    assert_eq!(sim.wire_count(), 2);
    let (_, sim) = design("module Top(x) -> () { wire y; Buffer b(in=x) -> (out=y); }");
    assert_eq!(sim.wire_count(), 3);
    let (_, sim) = design("module Top(x) -> () { wire y; Nor g(a=0b1, b=x) -> (out=y); }");
    assert_eq!(sim.wire_count(), 3);
    let (_, sim) =
        design("module Top(x[3]) -> (z[2]) { wire y[2]; Buffer p(in=x[0]) -> (out=z[0]); Buffer q(in=x[1]) -> (out=z[1]); Buffer r(in=1) -> (out=y[0]); Buffer s(in=x[2]) -> (out=y[1]); }");
    // 5 bits of ports, 2 private bits at the top, one private bit in each
    // of the four buffers, one bit of a constant
    assert_eq!(sim.wire_count(), 5 + 2 + 4 + 1);
}

#[test]
fn constant_values_are_set_when_allocated() {
    let (graph, sim) =
        design("module Top() -> (y[2]) { Nor g(a=0b1, b=1) -> (out=y[0]); Nor h(a=0, b=0b0) -> (out=y[1]); }");
    let addr = graph.wire_addr(&["g".to_string(), "a".to_string()]).unwrap();
    assert!(sim.get_value(addr[0]));
    let addr = graph.wire_addr(&["h".to_string(), "a".to_string()]).unwrap();
    assert!(!sim.get_value(addr[0]));
}

#[test]
fn every_wire_has_one_driver_but_inputs_and_constants() {
    let (graph, sim) = design(
        "module Top(x) -> (z) { wire y; Buffer b(in=x) -> (out=y); Nor g(a=y, b=0) -> (out=z); }",
    );
    let count = drivers(&sim);
    let x = graph.wire_addr(&["x".to_string()]).unwrap()[0];
    let constant = graph.wire_addr(&["g".to_string(), "b".to_string()]).unwrap()[0];
    for (bit, n) in count.iter().enumerate() {
        if bit == x || bit == constant {
            assert_eq!(*n, 0);
        } else {
            assert_eq!(*n, 1);
        }
    }
}

#[test]
fn constant_bound_to_an_output_gets_one_driver() {
    let (graph, sim) = design("module Top(x) -> () { Not n(in=x) -> (out=0); }");
    let sink = graph.wire_addr(&["n".to_string(), "out".to_string()]).unwrap()[0];
    assert_eq!(drivers(&sim)[sink], 1);
}

#[test]
fn output_bound_twice_leaves_the_first_bus_without_driver() {
    let (graph, sim) =
        design("module Top(x) -> () { wire y, z; Not n(in=x) -> (out=y, out=z); }");
    let count = drivers(&sim);
    let y = graph.wire_addr(&["y".to_string()]).unwrap()[0];
    let z = graph.wire_addr(&["z".to_string()]).unwrap()[0];
    assert_eq!(count[y], 0);
    assert_eq!(count[z], 1);
}

#[test]
fn stable_netlist_is_a_fixed_point() {
    let (graph, mut sim) = design(
        "module Top(s, r) -> () { wire q, nq; Nor a(a=r, b=nq) -> (out=q); Nor b(a=s, b=q) -> (out=nq); }",
    );
    for (s, r) in [(true, false), (false, false), (false, true), (false, false)] {
        set_value(&mut sim, &graph, "s", &[s]).unwrap();
        set_value(&mut sim, &graph, "r", &[r]).unwrap();
        assert!(simulate(&mut sim, 0));
        for g in 0..sim.gate_count() {
            let (a, b, out) = sim.gate(g);
            assert_eq!(sim.get_value(out), !(sim.get_value(a) || sim.get_value(b)));
        }
    }
}

#[test]
fn gates_before_their_readers_settle_in_one_pass() {
    for count in 1..8 {
        let order: Vec<usize> = (0..count).collect();
        let mut sim = inverter_chain(&order);
        assert_eq!(events_until_stable(&mut sim, 1000), count);
        for stage in 0..count {
            assert_eq!(sim.get_value(stage + 1), stage % 2 == 0);
        }
        let mut again = inverter_chain(&order);
        assert!(simulate(&mut again, count as u64));
        assert!(simulate(&mut again, 1));
    }
}

#[test]
fn readers_before_their_gates_need_more_than_one_pass() {
    let mut sim = inverter_chain(&[3, 2, 1, 0]);
    assert_eq!(events_until_stable(&mut sim, 1000), 10);
    let mut capped = inverter_chain(&[3, 2, 1, 0]);
    assert!(!simulate(&mut capped, 8));
    assert!(simulate(&mut capped, 2));
}

#[test]
fn one_event_computes_the_nor_of_the_inputs() {
    for a in [false, true] {
        for b in [false, true] {
            let mut net = Net::new();
            net.allocate_wire(3);
            net.set_value(0, a);
            net.set_value(1, b);
            net.create_nor(0, 1, 2);
            assert_eq!(net.gate(0), (0, 1, 2));
            assert_eq!(net.get_value(0), a);
            let mut sim = Simulation::new(net);
            sim.update();
            assert!(sim.is_stable());
            assert_eq!(sim.get_value(2), !(a || b));
        }
    }
}

#[test]
fn writing_a_wire_queues_its_readers_once() {
    let mut sim = inverter_chain(&[0, 1]);
    assert_eq!(events_until_stable(&mut sim, 100), 2);
    sim.set_value(0, true);
    sim.set_value(0, true);
    assert!(!sim.is_stable());
    assert_eq!(events_until_stable(&mut sim, 100), 2);
    assert!(!sim.get_value(1));
    assert!(sim.get_value(2));
}
