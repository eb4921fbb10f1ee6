//! The query surface: running the simulation, and reading and writing wires
//! by dotted path.

use vstd::prelude::*;
use vstd::string::*;
use crate::grammar::list_at;
use crate::net::{all_below, poke, run, SimView, Simulation};
use crate::netgraph::{
    displayable, lemma_resolve_bounded, path_display, path_view, wire_addr_of, wire_width_of,
    Error, ErrorView, GraphModule, GraphModuleView,
};
use crate::parsing::path;

verus! {

broadcast use crate::views::group_deep_view;

/// The number of events that a call of `simulate` may consume: the count
/// given, or, for the count 0, the largest count there is.
pub open spec fn budget(count: u64) -> nat {
    if count == 0 {
        u64::MAX as nat
    } else {
        count as nat
    }
}

/// The segments of the dotted path that `text` starts with.
pub open spec fn segments(text: Seq<char>) -> Seq<Seq<char>> {
    list_at::<String>("."@, text, 0).0
}

/// The values of the wires at `addr`.
pub open spec fn values_at(wires: Seq<bool>, addr: Seq<usize>) -> Seq<bool> {
    Seq::new(addr.len(), |i: int| wires[addr[i] as int])
}

/// The state after the first `n` of `values` were written to the first `n`
/// wires of `addr`, in order.
pub open spec fn poke_all(s: SimView, addr: Seq<usize>, values: Seq<bool>, n: nat) -> SimView
    decreases n,
{
    if n == 0 {
        s
    } else {
        poke(poke_all(s, addr, values, (n - 1) as nat), addr[n - 1] as nat, values[n - 1])
    }
}

/// The smaller of two numbers.
pub open spec fn least(a: nat, b: nat) -> nat {
    if a <= b {
        a
    } else {
        b
    }
}

/// The text that reports an error of the hierarchy index.
pub open spec fn error_text(e: ErrorView) -> Seq<char> {
    match e {
        ErrorView::InvalidPath(text) => "Error: InvalidPath(\""@ + text + "\")"@,
    }
}

/// A tree whose bits lie in the simulated netlist can be displayed by the
/// simulation.
pub proof fn lemma_bounded_displayable(g: GraphModuleView, sim: &Simulation)
    requires
        g.bounded(sim@.wires.len()),
    ensures
        displayable(g, sim),
    decreases g,
{
    assert forall|w: int| 0 <= w < g.locals.len() implies crate::netgraph::WireDisplayer::can_display(
        sim,
        (#[trigger] g.locals[w]).values,
    ) by {
        assert forall|k: int| 0 <= k < g.locals[w].values.len() implies (
        #[trigger] g.locals[w].values[k]) < sim@.wires.len() by {}
    }
    assert forall|i: int| 0 <= i < g.instances.len() implies displayable(
        #[trigger] g.instances[i],
        sim,
    ) by {
        lemma_bounded_displayable(g.instances[i], sim);
    }
}

/// Runs the simulation until it is stable or `count` events are consumed;
/// the count 0 stands for the largest count there is. The result tells
/// whether the simulation is stable.
pub fn simulate(sim: &mut Simulation, count: u64) -> (stable: bool)
    requires
        old(sim).wf(),
    ensures
        final(sim).wf(),
        final(sim)@ == run(old(sim)@, budget(count)),
        stable == (final(sim)@.queue.len() == 0),
{
    let mut left: u64 = if count == 0 {
        u64::MAX
    } else {
        count
    };
    while left > 0 && !sim.is_stable()
        invariant
            sim.wf(),
            run(old(sim)@, budget(count)) == run(sim@, left as nat),
        decreases left,
    {
        sim.update();
        left -= 1;
    }
    sim.is_stable()
}

/// The values of the bits of the wire that `path` names, lowest bit first.
pub fn read_wire(sim: &Simulation, graph: &GraphModule, path_text: &str) -> (r: Result<
    Vec<bool>,
    Error,
>)
    requires
        graph@.bounded(sim@.wires.len()),
    ensures
        match r {
            Ok(values) => wire_addr_of(graph@, segments(path_text@)) matches Ok(addr)
                && values@ == values_at(sim@.wires, addr),
            Err(e) => wire_addr_of(graph@, segments(path_text@)) == Err::<Seq<usize>, ErrorView>(
                e@,
            ),
        },
{
    let location = path(path_text);
    assert(path_view(location@) =~= segments(path_text@));
    let addr = match graph.wire_addr(location.as_slice()) {
        Ok(addr) => addr,
        Err(e) => {
            return Err(e);
        },
    };
    proof {
        lemma_resolve_bounded(graph@, segments(path_text@), sim@.wires.len());
    }
    let mut values: Vec<bool> = Vec::new();
    let mut i: usize = 0;
    while i < addr.len()
        invariant
            i <= addr.len(),
            all_below(addr@, sim@.wires.len()),
            values@ == values_at(sim@.wires, addr@.take(i as int)),
        decreases addr.len() - i,
    {
        values.push(sim.get_value(addr[i]));
        i += 1;
        assert(values@ =~= values_at(sim@.wires, addr@.take(i as int)));
    }
    assert(addr@.take(addr.len() as int) =~= addr@);
    Ok(values)
}

/// The values of the bits of the wire that `path` names, lowest bit first;
/// no values where the path names no wire.
pub fn get_value(sim: &Simulation, graph: &GraphModule, path_text: &str) -> (values: Vec<bool>)
    requires
        graph@.bounded(sim@.wires.len()),
    ensures
        values@ == (match wire_addr_of(graph@, segments(path_text@)) {
            Ok(addr) => values_at(sim@.wires, addr),
            Err(_) => Seq::empty(),
        }),
{
    match read_wire(sim, graph, path_text) {
        Ok(values) => values,
        Err(_) => Vec::new(),
    }
}

/// Writes `values` to the lowest bits of the wire that `path` names, and
/// queues the gates that read them. Bits of the wire beyond the values keep
/// theirs; values beyond the wire are not written. The result tells whether
/// there was a value for every bit of the wire.
pub fn set_value(sim: &mut Simulation, graph: &GraphModule, path_text: &str, values: &[bool]) -> (r:
    Result<bool, Error>)
    requires
        old(sim).wf(),
        graph@.bounded(old(sim)@.wires.len()),
    ensures
        final(sim).wf(),
        match r {
            Ok(complete) => wire_addr_of(graph@, segments(path_text@)) matches Ok(addr)
                && final(sim)@ == poke_all(
                old(sim)@,
                addr,
                values@,
                least(addr.len(), values@.len()),
            ) && complete == (values@.len() >= addr.len()),
            Err(e) => wire_addr_of(graph@, segments(path_text@)) == Err::<Seq<usize>, ErrorView>(
                e@,
            ) && final(sim)@ == old(sim)@,
        },
{
    let location = path(path_text);
    assert(path_view(location@) =~= segments(path_text@));
    let addr = match graph.wire_addr(location.as_slice()) {
        Ok(addr) => addr,
        Err(e) => {
            return Err(e);
        },
    };
    proof {
        lemma_resolve_bounded(graph@, segments(path_text@), sim@.wires.len());
    }
    let count = if addr.len() <= values.len() {
        addr.len()
    } else {
        values.len()
    };
    let mut i: usize = 0;
    while i < count
        invariant
            i <= count,
            count <= addr.len(),
            count <= values@.len(),
            sim.wf(),
            sim@.wires.len() == old(sim)@.wires.len(),
            all_below(addr@, sim@.wires.len()),
            sim@ == poke_all(old(sim)@, addr@, values@, i as nat),
        decreases count - i,
    {
        sim.set_value(addr[i], values[i]);
        i += 1;
    }
    Ok(values.len() >= addr.len())
}

/// The number of bits of the wire that `path` names; 0 where the path names
/// no wire.
pub fn get_width(graph: &GraphModule, path_text: &str) -> (width: u64)
    ensures
        width == (match wire_width_of(graph@, segments(path_text@)) {
            Ok(w) => w,
            Err(_) => 0,
        }),
{
    let location = path(path_text);
    assert(path_view(location@) =~= segments(path_text@));
    match graph.wire_width(location.as_slice()) {
        Ok(width) => width,
        Err(_) => 0,
    }
}

/// The display of what `path` names: a module with its wires and
/// instances, or a wire with its value; or the report of the error.
pub fn get_description(sim: &Simulation, graph: &GraphModule, path_text: &str) -> (text: String)
    requires
        graph@.bounded(sim@.wires.len()),
    ensures
        text@ == (match path_display(graph@, Seq::empty(), segments(path_text@), sim) {
            Ok(shown) => shown,
            Err(e) => error_text(e),
        }),
{
    let location = path(path_text);
    assert(path_view(location@) =~= segments(path_text@));
    proof {
        lemma_bounded_displayable(graph@, sim);
        reveal_strlit("");
    }
    let head = String::from_str("");
    assert(head@ =~= Seq::empty());
    match graph.display_path(head, location.as_slice(), sim) {
        Ok(shown) => shown,
        Err(e) => {
            let mut text = String::from_str("Error: InvalidPath(\"");
            match e {
                Error::InvalidPath(message) => {
                    text.append(message.as_str());
                },
            }
            text.append("\")");
            text
        },
    }
}

} // verus!
