//! Driver uniqueness: after a successful link no two gates drive the same
//! wire bit, every output port and every private wire bit has a driver, and
//! no other bit that existed before the link has one.

use vstd::prelude::*;
use crate::link::{
    alloc_bus, alloc_bus_from, alloc_part, bind_from, bind_instance, bind_one, bump, counted,
    fresh_bits, lemma_placed_grows, lemma_unbound_none, part_span, placed, ports_placed, sat_inc,
    unbound_port_from, BindState, BusState,
};
use crate::elaboration::{
    children_bits, lemma_instance_allocates, lemma_instances_allocate, lemma_module_allocates,
};
use crate::link::{
    allocate_privates, driver_error_from, first_bad_bit, free_modules, initial_edits, is_nor,
    lemma_free_modules_push, link_instance, link_instances_from, link_module, modules_by_name,
    nor_declared, nor_name, LinkState, Linked,
};
use crate::link::{graph_wires, with_gate};
use crate::net::GateView;
use crate::netgraph::GraphModuleView;
use crate::parsed::Module;
use crate::parsed::InstanceView;
use crate::parsed::ConnectionView;
use crate::net::NetView;
use crate::parsed::{find_local, lemma_find_local, ModuleView, WireKind, WirePartView, WireView};

verus! {

/// Bit `y` of wire `x` exists.
pub open spec fn valid_pos(locals: Seq<WireView>, x: int, y: int) -> bool {
    0 <= x < locals.len() && 0 <= y < locals[x].width
}

/// No bit counts more than one driver.
pub open spec fn at_most_once(locals: Seq<WireView>, edits: Seq<Seq<usize>>) -> bool {
    forall|x: int, y: int| valid_pos(locals, x, y) ==> #[trigger] edits[x][y] <= 1
}

/// No driver count is smaller in `after` than in `before`.
pub open spec fn grows(locals: Seq<WireView>, before: Seq<Seq<usize>>, after: Seq<Seq<usize>>) -> bool {
    forall|x: int, y: int| valid_pos(locals, x, y) ==> before[x][y] <= #[trigger] after[x][y]
}

/// Every bit of an input counts a driver.
pub open spec fn inputs_marked(locals: Seq<WireView>, edits: Seq<Seq<usize>>) -> bool {
    forall|x: int, y: int|
        valid_pos(locals, x, y) && locals[x].kind == WireKind::Input ==> #[trigger] edits[x][y] >= 1
}

/// The bits of the wires that are not inputs lie at pairwise different
/// places.
pub open spec fn distinct_places(locals: Seq<WireView>, alloc: Seq<Seq<usize>>) -> bool {
    forall|x: int, y: int, u: int, v: int|
        valid_pos(locals, x, y) && valid_pos(locals, u, v) && locals[x].kind != WireKind::Input
            && locals[u].kind != WireKind::Input && (x != u || y != v) ==> #[trigger] alloc[x][y]
            != #[trigger] alloc[u][v]
}

/// `bit` is the place of a wire bit whose driver count rose from `before`
/// to `after`.
pub open spec fn risen(
    locals: Seq<WireView>,
    alloc: Seq<Seq<usize>>,
    before: Seq<Seq<usize>>,
    after: Seq<Seq<usize>>,
    bit: usize,
) -> bool {
    exists|x: int, y: int|
        valid_pos(locals, x, y) && #[trigger] alloc[x][y] == bit && before[x][y] < after[x][y]
}

/// What holds of a bus that is being evaluated, where the evaluation began
/// with the driver counts `start` in a netlist of `base` wires: every bit
/// lies in the netlist; and on the output side the bits are pairwise
/// different, each is a fresh constant or the place of a wire bit whose
/// driver count rose, and every wire bit whose count rose is among them.
pub open spec fn bus_inv(
    locals: Seq<WireView>,
    alloc: Seq<Seq<usize>>,
    start: Seq<Seq<usize>>,
    base: nat,
    st: BusState,
    output: bool,
) -> bool {
    &&& counted(locals, st.edits)
    &&& grows(locals, start, st.edits)
    &&& base <= st.net.wires.len()
    &&& forall|j: int| 0 <= j < st.bits.len() ==> #[trigger] st.bits[j] < st.net.wires.len()
    &&& output ==> {
        &&& forall|j: int|
            0 <= j < st.bits.len() ==> (#[trigger] st.bits[j]) >= base || risen(
                locals,
                alloc,
                start,
                st.edits,
                st.bits[j],
            )
        &&& forall|j: int, k: int|
            0 <= j < st.bits.len() && 0 <= k < st.bits.len() && j != k ==> #[trigger] st.bits[j]
                != #[trigger] st.bits[k]
        &&& forall|x: int, y: int|
            valid_pos(locals, x, y) && start[x][y] < st.edits[x][y] ==> st.bits.contains(
                #[trigger] alloc[x][y],
            )
    }
}

/// What one part of a bus does to the state of the evaluation.
pub proof fn lemma_part_step(
    m: ModuleView,
    alloc: Seq<Seq<usize>>,
    part: WirePartView,
    output: bool,
    st: BusState,
)
    requires
        counted(m.locals, st.edits),
        alloc_part(m, alloc, part, output, st) is Ok,
    ensures
        counted(m.locals, alloc_part(m, alloc, part, output, st)->Ok_0.edits),
        grows(m.locals, st.edits, alloc_part(m, alloc, part, output, st)->Ok_0.edits),
        alloc_part(m, alloc, part, output, st)->Ok_0.net.gates == st.net.gates,
        alloc_part(m, alloc, part, output, st)->Ok_0.net.wires.len() >= st.net.wires.len(),
        alloc_part(m, alloc, part, output, st)->Ok_0.bits.len() >= st.bits.len(),
{
    let next = alloc_part(m, alloc, part, output, st)->Ok_0;
    match part {
        WirePartView::Local { name, range } => {
            lemma_find_local(m.locals, name);
            let idx = find_local(m.locals, name)->0;
            let (lo, hi) = part_span(range, m.locals[idx].width)->0;
            if output {
                assert forall|x: int| 0 <= x < m.locals.len() implies (#[trigger] next.edits[x]).len()
                    == m.locals[x].width by {
                    if x != idx {
                        assert(next.edits[x] == st.edits[x]);
                    }
                }
                assert forall|x: int, y: int| valid_pos(m.locals, x, y) implies st.edits[x][y]
                    <= #[trigger] next.edits[x][y] by {
                    if x != idx {
                        assert(next.edits[x] == st.edits[x]);
                    }
                }
            }
        },
        WirePartView::Constant(values) => {},
    }
}

/// Evaluating a bus never lowers a driver count, never shrinks the netlist
/// and adds no gate.
pub proof fn lemma_bus_monotone(
    m: ModuleView,
    alloc: Seq<Seq<usize>>,
    bus: Seq<WirePartView>,
    output: bool,
    i: int,
    st: BusState,
)
    requires
        0 <= i <= bus.len(),
        counted(m.locals, st.edits),
        alloc_bus_from(m, alloc, bus, output, i, st) is Ok,
    ensures
        counted(m.locals, alloc_bus_from(m, alloc, bus, output, i, st)->Ok_0.edits),
        grows(m.locals, st.edits, alloc_bus_from(m, alloc, bus, output, i, st)->Ok_0.edits),
        alloc_bus_from(m, alloc, bus, output, i, st)->Ok_0.net.gates == st.net.gates,
        alloc_bus_from(m, alloc, bus, output, i, st)->Ok_0.net.wires.len() >= st.net.wires.len(),
        alloc_bus_from(m, alloc, bus, output, i, st)->Ok_0.bits.len() >= st.bits.len(),
        !output ==> alloc_bus_from(m, alloc, bus, output, i, st)->Ok_0.edits == st.edits,
    decreases bus.len() - i,
{
    if i < bus.len() {
        let next = alloc_part(m, alloc, bus[i], output, st)->Ok_0;
        lemma_part_step(m, alloc, bus[i], output, st);
        lemma_bus_monotone(m, alloc, bus, output, i + 1, next);
        let r = alloc_bus_from(m, alloc, bus, output, i, st)->Ok_0;
        assert forall|x: int, y: int| valid_pos(m.locals, x, y) implies st.edits[x][y]
            <= #[trigger] r.edits[x][y] by {
            assert(st.edits[x][y] <= next.edits[x][y]);
        }
    }
}

/// One part of a bus keeps what `bus_inv` says.
pub proof fn lemma_part_drives(
    m: ModuleView,
    alloc: Seq<Seq<usize>>,
    part: WirePartView,
    output: bool,
    st: BusState,
    start: Seq<Seq<usize>>,
    base: nat,
)
    requires
        placed(m.locals, alloc, base),
        bus_inv(m.locals, alloc, start, base, st, output),
        alloc_part(m, alloc, part, output, st) is Ok,
        alloc_part(m, alloc, part, output, st)->Ok_0.net.wires.len() <= usize::MAX,
        output ==> at_most_once(m.locals, alloc_part(m, alloc, part, output, st)->Ok_0.edits),
        output ==> inputs_marked(m.locals, start),
        output ==> distinct_places(m.locals, alloc),
    ensures
        bus_inv(m.locals, alloc, start, base, alloc_part(m, alloc, part, output, st)->Ok_0, output),
{
    let locals = m.locals;
    let next = alloc_part(m, alloc, part, output, st)->Ok_0;
    let n0 = st.bits.len() as int;
    lemma_part_step(m, alloc, part, output, st);
    assert(grows(locals, start, next.edits)) by {
        assert forall|x: int, y: int| valid_pos(locals, x, y) implies start[x][y]
            <= #[trigger] next.edits[x][y] by {
            assert(start[x][y] <= st.edits[x][y]);
            assert(st.edits[x][y] <= next.edits[x][y]);
        }
    }
    match part {
        WirePartView::Local { name, range } => {
            lemma_find_local(locals, name);
            let idx = find_local(locals, name)->0;
            let (lo, hi) = part_span(range, locals[idx].width)->0;
            let taken = alloc[idx].subrange(lo, hi);
            assert(next.bits == st.bits + taken);
            assert(alloc[idx].len() == locals[idx].width);
            assert forall|j: int| 0 <= j < next.bits.len() implies #[trigger] next.bits[j]
                < next.net.wires.len() by {
                if j < n0 {
                    assert(next.bits[j] == st.bits[j]);
                } else {
                    assert(next.bits[j] == alloc[idx][lo + j - n0]);
                    assert(alloc[idx][lo + j - n0] < base);
                }
            }
            if output {
                assert(next.edits == bump(st.edits, idx, lo, hi));
                assert forall|y: int| lo <= y < hi implies st.edits[idx][y] == 0
                    && #[trigger] next.edits[idx][y] == 1 by {
                    assert(valid_pos(locals, idx, y));
                    assert(next.edits[idx][y] == sat_inc(st.edits[idx][y]));
                    assert(next.edits[idx][y] <= 1);
                }
                assert forall|x: int, y: int|
                    valid_pos(locals, x, y) && !(x == idx && lo <= y < hi) implies #[trigger] next.edits[x][y]
                    == st.edits[x][y] by {
                    if x != idx {
                        assert(next.edits[x] == st.edits[x]);
                    }
                }
                assert forall|j: int| 0 <= j < next.bits.len() implies (#[trigger] next.bits[j])
                    >= base || risen(locals, alloc, start, next.edits, next.bits[j]) by {
                    if j < n0 {
                        assert(next.bits[j] == st.bits[j]);
                        if st.bits[j] < base {
                            let (x, y) = choose|x: int, y: int|
                                valid_pos(locals, x, y) && #[trigger] alloc[x][y] == st.bits[j]
                                    && start[x][y] < st.edits[x][y];
                            assert(st.edits[x][y] <= next.edits[x][y]);
                            assert(valid_pos(locals, x, y) && alloc[x][y] == next.bits[j]
                                && start[x][y] < next.edits[x][y]);
                        }
                    } else {
                        let y = lo + j - n0;
                        assert(next.bits[j] == alloc[idx][y]);
                        assert(start[idx][y] <= st.edits[idx][y]);
                        assert(next.edits[idx][y] == 1);
                        assert(valid_pos(locals, idx, y) && alloc[idx][y] == next.bits[j]
                            && start[idx][y] < next.edits[idx][y]);
                    }
                }
                assert forall|y: int| lo <= y < hi implies #[trigger] st.edits[idx][y] == 0 by {
                    assert(next.edits[idx][y] == 1);
                }
                assert(at_most_once(locals, st.edits)) by {
                    assert forall|x: int, y: int| valid_pos(locals, x, y) implies #[trigger] st.edits[x][y]
                        <= 1 by {
                        assert(st.edits[x][y] <= next.edits[x][y]);
                    }
                }
                assert forall|j: int, k: int|
                    0 <= j < next.bits.len() && 0 <= k < next.bits.len() && j != k implies #[trigger] next.bits[j]
                    != #[trigger] next.bits[k] by {
                    lemma_local_distinct(m, alloc, st, start, base, idx, lo, hi, next, j, k);
                }
                assert forall|x: int, y: int|
                    valid_pos(locals, x, y) && start[x][y] < next.edits[x][y] implies next.bits.contains(
                    #[trigger] alloc[x][y],
                ) by {
                    if x == idx && lo <= y < hi {
                        assert(next.bits[n0 + y - lo] == alloc[x][y]);
                    } else {
                        assert(next.edits[x][y] == st.edits[x][y]);
                        assert(st.bits.contains(alloc[x][y]));
                        let j = choose|j: int| 0 <= j < st.bits.len() && st.bits[j] == alloc[x][y];
                        assert(next.bits[j] == alloc[x][y]);
                    }
                }
            }
        },
        WirePartView::Constant(values) => {
            let first = st.net.wires.len();
            let fresh = fresh_bits(first, values.len());
            assert(next.bits == st.bits + fresh);
            assert(next.net.wires.len() == first + values.len());
            assert(next.edits == st.edits);
            assert forall|j: int| n0 <= j < next.bits.len() implies #[trigger] next.bits[j] == first
                + j - n0 by {
                assert(next.bits[j] == fresh[j - n0]);
            }
            assert forall|j: int| 0 <= j < next.bits.len() implies #[trigger] next.bits[j]
                < next.net.wires.len() by {
                if j < n0 {
                    assert(next.bits[j] == st.bits[j]);
                }
            }
            if output {
                assert forall|j: int| 0 <= j < next.bits.len() implies (#[trigger] next.bits[j])
                    >= base || risen(locals, alloc, start, next.edits, next.bits[j]) by {
                    if j < n0 {
                        assert(next.bits[j] == st.bits[j]);
                    }
                }
                assert forall|j: int, k: int|
                    0 <= j < next.bits.len() && 0 <= k < next.bits.len() && j != k implies #[trigger] next.bits[j]
                    != #[trigger] next.bits[k] by {
                    if j < n0 {
                        assert(next.bits[j] == st.bits[j]);
                    }
                    if k < n0 {
                        assert(next.bits[k] == st.bits[k]);
                    }
                }
                assert forall|x: int, y: int|
                    valid_pos(locals, x, y) && start[x][y] < next.edits[x][y] implies next.bits.contains(
                    #[trigger] alloc[x][y],
                ) by {
                    assert(st.bits.contains(alloc[x][y]));
                    let j = choose|j: int| 0 <= j < st.bits.len() && st.bits[j] == alloc[x][y];
                    assert(next.bits[j] == alloc[x][y]);
                }
            }
        },
    }
}

/// After bits `lo..hi` of wire `idx` joined an output bus, the bits of the
/// bus are still pairwise different.
pub proof fn lemma_local_distinct(
    m: ModuleView,
    alloc: Seq<Seq<usize>>,
    st: BusState,
    start: Seq<Seq<usize>>,
    base: nat,
    idx: int,
    lo: int,
    hi: int,
    next: BusState,
    j: int,
    k: int,
)
    requires
        placed(m.locals, alloc, base),
        bus_inv(m.locals, alloc, start, base, st, true),
        inputs_marked(m.locals, start),
        distinct_places(m.locals, alloc),
        0 <= idx < m.locals.len(),
        0 <= lo <= hi <= m.locals[idx].width,
        next.bits == st.bits + alloc[idx].subrange(lo, hi),
        forall|y: int| lo <= y < hi ==> #[trigger] st.edits[idx][y] == 0,
        at_most_once(m.locals, st.edits),
        0 <= j < next.bits.len(),
        0 <= k < next.bits.len(),
        j != k,
    ensures
        next.bits[j] != next.bits[k],
{
    let locals = m.locals;
    let n0 = st.bits.len() as int;
    assert(alloc[idx].len() == locals[idx].width);
    if j < n0 && k < n0 {
        assert(next.bits[j] == st.bits[j]);
        assert(next.bits[k] == st.bits[k]);
    } else if j >= n0 && k >= n0 {
        let y = lo + j - n0;
        let v = lo + k - n0;
        assert(next.bits[j] == alloc[idx][y]);
        assert(next.bits[k] == alloc[idx][v]);
        assert(start[idx][y] <= st.edits[idx][y]);
        assert(valid_pos(locals, idx, y) && valid_pos(locals, idx, v));
        assert(locals[idx].kind != WireKind::Input) by {
            if locals[idx].kind == WireKind::Input {
                assert(start[idx][y] >= 1);
            }
        }
    } else {
        let (old, new) = if j < n0 {
            (j, k)
        } else {
            (k, j)
        };
        let y = lo + new - n0;
        assert(next.bits[old] == st.bits[old]);
        assert(next.bits[new] == alloc[idx][y]);
        assert(valid_pos(locals, idx, y));
        assert(alloc[idx][y] < base);
        assert(start[idx][y] <= st.edits[idx][y]);
        assert(locals[idx].kind != WireKind::Input) by {
            if locals[idx].kind == WireKind::Input {
                assert(start[idx][y] >= 1);
            }
        }
        if st.bits[old] < base {
            let (x, u) = choose|x: int, u: int|
                valid_pos(locals, x, u) && #[trigger] alloc[x][u] == st.bits[old] && start[x][u]
                    < st.edits[x][u];
            assert(!(x == idx && u == y));
            assert(locals[x].kind != WireKind::Input) by {
                if locals[x].kind == WireKind::Input {
                    assert(start[x][u] >= 1);
                    assert(st.edits[x][u] <= 1);
                }
            }
        }
    }
}

/// Evaluating a bus keeps what `bus_inv` says.
pub proof fn lemma_bus_drives(
    m: ModuleView,
    alloc: Seq<Seq<usize>>,
    bus: Seq<WirePartView>,
    output: bool,
    i: int,
    st: BusState,
    start: Seq<Seq<usize>>,
    base: nat,
)
    requires
        0 <= i <= bus.len(),
        placed(m.locals, alloc, base),
        bus_inv(m.locals, alloc, start, base, st, output),
        alloc_bus_from(m, alloc, bus, output, i, st) is Ok,
        alloc_bus_from(m, alloc, bus, output, i, st)->Ok_0.net.wires.len() <= usize::MAX,
        output ==> at_most_once(m.locals, alloc_bus_from(m, alloc, bus, output, i, st)->Ok_0.edits),
        output ==> inputs_marked(m.locals, start),
        output ==> distinct_places(m.locals, alloc),
    ensures
        bus_inv(
            m.locals,
            alloc,
            start,
            base,
            alloc_bus_from(m, alloc, bus, output, i, st)->Ok_0,
            output,
        ),
    decreases bus.len() - i,
{
    if i < bus.len() {
        let next = alloc_part(m, alloc, bus[i], output, st)->Ok_0;
        let r = alloc_bus_from(m, alloc, bus, output, i, st)->Ok_0;
        lemma_part_step(m, alloc, bus[i], output, st);
        lemma_bus_monotone(m, alloc, bus, output, i + 1, next);
        if output {
            assert forall|x: int, y: int| valid_pos(m.locals, x, y) implies #[trigger] next.edits[x][y]
                <= 1 by {
                assert(next.edits[x][y] <= r.edits[x][y]);
            }
        }
        lemma_part_drives(m, alloc, bus[i], output, st, start, base);
        lemma_bus_drives(m, alloc, bus, output, i + 1, next, start, base);
    }
}

/// Bit `b` of port `p` of the instantiated module is bound.
pub open spec fn bound_pos(ports: Seq<Seq<usize>>, p: int, b: int) -> bool {
    0 <= p < ports.len() && 0 <= b < ports[p].len()
}

/// What holds while the output connections of an instance are bound, where
/// the binding of outputs began with the driver counts `start` in a netlist
/// of `base` wires: the bits bound to output ports are pairwise different,
/// each is a fresh constant or the place of a wire bit whose driver count
/// rose, and every wire bit whose count rose is bound to an output port. An
/// output port has bits only if one of the first `done` connections names
/// it. The other ports are as they were.
pub open spec fn ports_inv(
    child: Seq<WireView>,
    locals: Seq<WireView>,
    alloc: Seq<Seq<usize>>,
    start: BindState,
    conns: Seq<ConnectionView>,
    done: int,
    st: BindState,
) -> bool {
    &&& counted(locals, st.edits)
    &&& grows(locals, start.edits, st.edits)
    &&& start.net.wires.len() <= st.net.wires.len()
    &&& st.net.gates == start.net.gates
    &&& st.ports.len() == child.len()
    &&& forall|p: int|
        0 <= p < child.len() && child[p].kind != WireKind::Output ==> #[trigger] st.ports[p]
            == start.ports[p]
    &&& forall|p: int|
        0 <= p < child.len() && child[p].kind == WireKind::Output && (#[trigger] st.ports[p]).len()
            != 0 ==> exists|j: int|
            0 <= j < done && find_local(child, (#[trigger] conns[j]).module) == Some(p)
    &&& forall|p: int, b: int|
        bound_pos(st.ports, p, b) && child[p].kind == WireKind::Output ==> (
        #[trigger] st.ports[p][b]) < st.net.wires.len() && (st.ports[p][b] >= start.net.wires.len()
            || risen(locals, alloc, start.edits, st.edits, st.ports[p][b]))
    &&& forall|p: int, b: int, q: int, d: int|
        bound_pos(st.ports, p, b) && bound_pos(st.ports, q, d) && child[p].kind == WireKind::Output
            && child[q].kind == WireKind::Output && (p != q || b != d) ==> #[trigger] st.ports[p][b]
            != #[trigger] st.ports[q][d]
    &&& forall|x: int, y: int|
        valid_pos(locals, x, y) && start.edits[x][y] < st.edits[x][y] ==> covered(
            child,
            st.ports,
            #[trigger] alloc[x][y],
        )
}

/// `bit` is bound to an output port.
pub open spec fn covered(child: Seq<WireView>, ports: Seq<Seq<usize>>, bit: usize) -> bool {
    exists|p: int, b: int|
        bound_pos(ports, p, b) && child[p].kind == WireKind::Output && #[trigger] ports[p][b] == bit
}

/// No two connections name the same port.
pub open spec fn distinct_ports(conns: Seq<ConnectionView>) -> bool {
    forall|j: int, k: int|
        0 <= j < conns.len() && 0 <= k < conns.len() && j != k ==> (#[trigger] conns[j]).module != (
        #[trigger] conns[k]).module
}

/// What the hypotheses of the lemmas on output bindings have in common.
pub open spec fn binding_frame(
    m: ModuleView,
    alloc: Seq<Seq<usize>>,
    start: BindState,
    n: nat,
) -> bool {
    &&& placed(m.locals, alloc, n)
    &&& n <= start.net.wires.len()
    &&& inputs_marked(m.locals, start.edits)
    &&& distinct_places(m.locals, alloc)
}

/// Binding one output connection keeps what `ports_inv` says.
pub proof fn lemma_bind_one_drives(
    m: ModuleView,
    alloc: Seq<Seq<usize>>,
    child: ModuleView,
    instance: Seq<char>,
    conns: Seq<ConnectionView>,
    i: int,
    st: BindState,
    start: BindState,
    n: nat,
)
    requires
        0 <= i < conns.len(),
        binding_frame(m, alloc, start, n),
        distinct_ports(conns),
        ports_inv(child.locals, m.locals, alloc, start, conns, i, st),
        bind_one(m, alloc, child, instance, conns[i], WireKind::Output, st) is Ok,
        bind_one(m, alloc, child, instance, conns[i], WireKind::Output, st)->Ok_0.net.wires.len()
            <= usize::MAX,
        at_most_once(
            m.locals,
            bind_one(m, alloc, child, instance, conns[i], WireKind::Output, st)->Ok_0.edits,
        ),
    ensures
        ports_inv(
            child.locals,
            m.locals,
            alloc,
            start,
            conns,
            i + 1,
            bind_one(m, alloc, child, instance, conns[i], WireKind::Output, st)->Ok_0,
        ),
{
    let locals = m.locals;
    let ports = child.locals;
    let conn = conns[i];
    let next = bind_one(m, alloc, child, instance, conn, WireKind::Output, st)->Ok_0;
    lemma_find_local(ports, conn.module);
    let p = find_local(ports, conn.module)->0;
    let first = BusState { bits: Seq::empty(), edits: st.edits, net: st.net };
    let bus = alloc_bus(m, alloc, conn.local, true, st.edits, st.net)->Ok_0;
    assert(bus == alloc_bus_from(m, alloc, conn.local, true, 0, first)->Ok_0);
    assert(next.ports == st.ports.update(p, bus.bits));
    assert(next.edits == bus.edits);
    assert(next.net == bus.net);
    let base = st.net.wires.len();
    lemma_placed_grows(locals, alloc, n, base);
    assert(inputs_marked(locals, st.edits)) by {
        assert forall|x: int, y: int|
            valid_pos(locals, x, y) && locals[x].kind == WireKind::Input implies #[trigger] st.edits[x][y]
            >= 1 by {
            assert(start.edits[x][y] >= 1);
            assert(start.edits[x][y] <= st.edits[x][y]);
        }
    }
    lemma_bus_monotone(m, alloc, conn.local, true, 0, first);
    lemma_bus_drives(m, alloc, conn.local, true, 0, first, st.edits, base);
    assert(st.ports[p].len() == 0) by {
        if st.ports[p].len() != 0 {
            let j = choose|j: int|
                0 <= j < i && find_local(ports, (#[trigger] conns[j]).module) == Some(p);
            lemma_find_local(ports, conns[j].module);
            assert(conns[j].module == conns[i].module);
        }
    }
    assert(grows(locals, start.edits, next.edits)) by {
        assert forall|x: int, y: int| valid_pos(locals, x, y) implies start.edits[x][y]
            <= #[trigger] next.edits[x][y] by {
            assert(start.edits[x][y] <= st.edits[x][y]);
            assert(st.edits[x][y] <= next.edits[x][y]);
        }
    }
    assert forall|q: int| 0 <= q < ports.len() && ports[q].kind != WireKind::Output implies #[trigger] next.ports[q]
        == start.ports[q] by {
        assert(next.ports[q] == st.ports[q]);
    }
    assert forall|q: int|
        0 <= q < ports.len() && ports[q].kind == WireKind::Output && (#[trigger] next.ports[q]).len()
            != 0 implies exists|j: int|
        0 <= j < i + 1 && find_local(ports, (#[trigger] conns[j]).module) == Some(q) by {
        if q == p {
            assert(0 <= i < i + 1 && find_local(ports, conns[i].module) == Some(q));
        } else {
            assert(next.ports[q] == st.ports[q]);
            let j = choose|j: int|
                0 <= j < i && find_local(ports, (#[trigger] conns[j]).module) == Some(q);
            assert(0 <= j < i + 1 && find_local(ports, conns[j].module) == Some(q));
        }
    }
    assert forall|q: int, b: int|
        bound_pos(next.ports, q, b) && ports[q].kind == WireKind::Output implies (
    #[trigger] next.ports[q][b]) < next.net.wires.len() && (next.ports[q][b]
        >= start.net.wires.len() || risen(
        locals,
        alloc,
        start.edits,
        next.edits,
        next.ports[q][b],
    )) by {
        lemma_port_bit(m, alloc, child, st, start, next, bus, p, q, b);
    }
    assert forall|q: int, b: int, r: int, d: int|
        bound_pos(next.ports, q, b) && bound_pos(next.ports, r, d) && ports[q].kind
            == WireKind::Output && ports[r].kind == WireKind::Output && (q != r || b != d) implies #[trigger] next.ports[q][b]
        != #[trigger] next.ports[r][d] by {
        lemma_port_distinct(m, alloc, child, conns, i, st, start, n, next, bus, p, q, b, r, d);
    }
    assert forall|x: int, y: int|
        valid_pos(locals, x, y) && start.edits[x][y] < next.edits[x][y] implies covered(
        ports,
        next.ports,
        #[trigger] alloc[x][y],
    ) by {
        if start.edits[x][y] < st.edits[x][y] {
            assert(covered(ports, st.ports, alloc[x][y]));
            let (q, b) = choose|q: int, b: int|
                bound_pos(st.ports, q, b) && ports[q].kind == WireKind::Output && #[trigger] st.ports[q][b]
                    == alloc[x][y];
            assert(q != p);
            assert(next.ports[q] == st.ports[q]);
            assert(bound_pos(next.ports, q, b) && ports[q].kind == WireKind::Output
                && next.ports[q][b] == alloc[x][y]);
        } else {
            assert(st.edits[x][y] < bus.edits[x][y]);
            assert(bus.bits.contains(alloc[x][y]));
            let b = choose|b: int| 0 <= b < bus.bits.len() && bus.bits[b] == alloc[x][y];
            assert(bound_pos(next.ports, p, b) && ports[p].kind == WireKind::Output
                && next.ports[p][b] == alloc[x][y]);
        }
    }
}

/// A bit bound to an output port lies in the netlist and is a fresh
/// constant or the place of a wire bit whose driver count rose.
pub proof fn lemma_port_bit(
    m: ModuleView,
    alloc: Seq<Seq<usize>>,
    child: ModuleView,
    st: BindState,
    start: BindState,
    next: BindState,
    bus: BusState,
    p: int,
    q: int,
    b: int,
)
    requires
        0 <= p < child.locals.len(),
        st.ports.len() == child.locals.len(),
        next.ports == st.ports.update(p, bus.bits),
        next.edits == bus.edits,
        next.net == bus.net,
        grows(m.locals, start.edits, st.edits),
        grows(m.locals, st.edits, next.edits),
        start.net.wires.len() <= st.net.wires.len() <= next.net.wires.len(),
        bus_inv(m.locals, alloc, st.edits, st.net.wires.len(), bus, true),
        forall|r: int, d: int|
            bound_pos(st.ports, r, d) && child.locals[r].kind == WireKind::Output ==> (
            #[trigger] st.ports[r][d]) < st.net.wires.len() && (st.ports[r][d]
                >= start.net.wires.len() || risen(
                m.locals,
                alloc,
                start.edits,
                st.edits,
                st.ports[r][d],
            )),
        bound_pos(next.ports, q, b),
        child.locals[q].kind == WireKind::Output,
    ensures
        next.ports[q][b] < next.net.wires.len(),
        next.ports[q][b] >= start.net.wires.len() || risen(
            m.locals,
            alloc,
            start.edits,
            next.edits,
            next.ports[q][b],
        ),
{
    let locals = m.locals;
    let bit = next.ports[q][b];
    if q == p {
        assert(bit == bus.bits[b]);
        if bit < start.net.wires.len() {
            assert(risen(locals, alloc, st.edits, bus.edits, bit));
            let (x, y) = choose|x: int, y: int|
                valid_pos(locals, x, y) && #[trigger] alloc[x][y] == bit && st.edits[x][y]
                    < bus.edits[x][y];
            assert(start.edits[x][y] <= st.edits[x][y]);
            assert(valid_pos(locals, x, y) && alloc[x][y] == bit && start.edits[x][y]
                < next.edits[x][y]);
        }
    } else {
        assert(next.ports[q] == st.ports[q]);
        assert(bound_pos(st.ports, q, b));
        assert(bit == st.ports[q][b]);
        if bit < start.net.wires.len() {
            let (x, y) = choose|x: int, y: int|
                valid_pos(locals, x, y) && #[trigger] alloc[x][y] == bit && start.edits[x][y]
                    < st.edits[x][y];
            assert(st.edits[x][y] <= next.edits[x][y]);
            assert(valid_pos(locals, x, y) && alloc[x][y] == bit && start.edits[x][y]
                < next.edits[x][y]);
        }
    }
}

/// After an output connection was bound, the bits of the output ports are
/// still pairwise different.
pub proof fn lemma_port_distinct(
    m: ModuleView,
    alloc: Seq<Seq<usize>>,
    child: ModuleView,
    conns: Seq<ConnectionView>,
    i: int,
    st: BindState,
    start: BindState,
    n: nat,
    next: BindState,
    bus: BusState,
    p: int,
    q: int,
    b: int,
    r: int,
    d: int,
)
    requires
        binding_frame(m, alloc, start, n),
        ports_inv(child.locals, m.locals, alloc, start, conns, i, st),
        0 <= p < child.locals.len(),
        st.ports[p].len() == 0,
        next.ports == st.ports.update(p, bus.bits),
        next.edits == bus.edits,
        next.net == bus.net,
        at_most_once(m.locals, next.edits),
        grows(m.locals, st.edits, next.edits),
        bus_inv(m.locals, alloc, st.edits, st.net.wires.len(), bus, true),
        bound_pos(next.ports, q, b),
        bound_pos(next.ports, r, d),
        child.locals[q].kind == WireKind::Output,
        child.locals[r].kind == WireKind::Output,
        q != r || b != d,
    ensures
        next.ports[q][b] != next.ports[r][d],
{
    let locals = m.locals;
    if q == p && r == p {
        assert(next.ports[q][b] == bus.bits[b]);
        assert(next.ports[r][d] == bus.bits[d]);
    } else if q != p && r != p {
        assert(next.ports[q] == st.ports[q]);
        assert(next.ports[r] == st.ports[r]);
        assert(bound_pos(st.ports, q, b) && bound_pos(st.ports, r, d));
    } else {
        let (new, old, o) = if q == p {
            (b, r, d)
        } else {
            (d, q, b)
        };
        let v = bus.bits[new];
        assert(next.ports[old] == st.ports[old]);
        assert(bound_pos(st.ports, old, o));
        let w = st.ports[old][o];
        assert(next.ports[p][new] == v);
        assert(w < st.net.wires.len());
        if v < st.net.wires.len() {
            assert(risen(locals, alloc, st.edits, bus.edits, v));
            let (x, y) = choose|x: int, y: int|
                valid_pos(locals, x, y) && #[trigger] alloc[x][y] == v && st.edits[x][y]
                    < bus.edits[x][y];
            assert(bus.edits[x][y] <= 1);
            assert(st.edits[x][y] == 0);
            assert(start.edits[x][y] <= st.edits[x][y]);
            assert(v < n);
            if w < start.net.wires.len() {
                assert(risen(locals, alloc, start.edits, st.edits, w));
                let (u, z) = choose|u: int, z: int|
                    valid_pos(locals, u, z) && #[trigger] alloc[u][z] == w && start.edits[u][z]
                        < st.edits[u][z];
                assert(st.edits[u][z] <= next.edits[u][z]);
                assert(next.edits[u][z] <= 1);
                assert(start.edits[u][z] == 0);
                assert(locals[x].kind != WireKind::Input) by {
                    if locals[x].kind == WireKind::Input {
                        assert(start.edits[x][y] >= 1);
                    }
                }
                assert(locals[u].kind != WireKind::Input) by {
                    if locals[u].kind == WireKind::Input {
                        assert(start.edits[u][z] >= 1);
                    }
                }
                assert(x != u || y != z);
                assert(alloc[x][y] != alloc[u][z]);
            }
        }
    }
}

/// Every bit of an evaluated bus lies in the netlist.
pub proof fn lemma_bus_fits(
    m: ModuleView,
    alloc: Seq<Seq<usize>>,
    bus: Seq<WirePartView>,
    output: bool,
    i: int,
    st: BusState,
    n: nat,
)
    requires
        0 <= i <= bus.len(),
        placed(m.locals, alloc, n),
        n <= st.net.wires.len(),
        counted(m.locals, st.edits),
        forall|j: int| 0 <= j < st.bits.len() ==> #[trigger] st.bits[j] < st.net.wires.len(),
        alloc_bus_from(m, alloc, bus, output, i, st) is Ok,
        alloc_bus_from(m, alloc, bus, output, i, st)->Ok_0.net.wires.len() <= usize::MAX,
    ensures
        forall|j: int|
            0 <= j < alloc_bus_from(m, alloc, bus, output, i, st)->Ok_0.bits.len()
                ==> #[trigger] alloc_bus_from(m, alloc, bus, output, i, st)->Ok_0.bits[j]
                < alloc_bus_from(m, alloc, bus, output, i, st)->Ok_0.net.wires.len(),
    decreases bus.len() - i,
{
    if i < bus.len() {
        let next = alloc_part(m, alloc, bus[i], output, st)->Ok_0;
        let n0 = st.bits.len() as int;
        lemma_part_step(m, alloc, bus[i], output, st);
        lemma_bus_monotone(m, alloc, bus, output, i + 1, next);
        assert forall|j: int| 0 <= j < next.bits.len() implies #[trigger] next.bits[j]
            < next.net.wires.len() by {
            if j < n0 {
                assert(next.bits[j] == st.bits[j]);
            } else {
                match bus[i] {
                    WirePartView::Local { name, range } => {
                        lemma_find_local(m.locals, name);
                        let idx = find_local(m.locals, name)->0;
                        let (lo, hi) = part_span(range, m.locals[idx].width)->0;
                        assert(alloc[idx].len() == m.locals[idx].width);
                        assert(next.bits[j] == alloc[idx][lo + j - n0]);
                        assert(alloc[idx][lo + j - n0] < n);
                    },
                    WirePartView::Constant(values) => {
                        assert(next.bits[j] == fresh_bits(st.net.wires.len(), values.len())[j
                            - n0]);
                    },
                }
            }
        }
        lemma_bus_fits(m, alloc, bus, output, i + 1, next, n);
    }
}

/// Every bound bit lies in a netlist of `n` wires, and a port that is bound
/// has as many bits as it is wide.
pub open spec fn ports_fit(child: Seq<WireView>, ports: Seq<Seq<usize>>, n: nat) -> bool {
    &&& ports.len() == child.len()
    &&& forall|p: int|
        0 <= p < child.len() ==> (#[trigger] ports[p]).len() == 0 || ports[p].len()
            == child[p].width
    &&& forall|p: int, b: int| bound_pos(ports, p, b) ==> #[trigger] ports[p][b] < n
}

/// Binding connections never lowers a driver count, never shrinks the
/// netlist, adds no gate, leaves the ports of the other kinds alone, and
/// keeps every bound bit inside the netlist.
pub proof fn lemma_bind_monotone(
    m: ModuleView,
    alloc: Seq<Seq<usize>>,
    child: ModuleView,
    instance: Seq<char>,
    conns: Seq<ConnectionView>,
    io: WireKind,
    i: int,
    st: BindState,
    n: nat,
)
    requires
        0 <= i <= conns.len(),
        placed(m.locals, alloc, n),
        n <= st.net.wires.len(),
        counted(m.locals, st.edits),
        ports_fit(child.locals, st.ports, st.net.wires.len()),
        bind_from(m, alloc, child, instance, conns, io, i, st) is Ok,
        bind_from(m, alloc, child, instance, conns, io, i, st)->Ok_0.net.wires.len() <= usize::MAX,
    ensures
        counted(m.locals, bind_from(m, alloc, child, instance, conns, io, i, st)->Ok_0.edits),
        grows(m.locals, st.edits, bind_from(m, alloc, child, instance, conns, io, i, st)->Ok_0.edits),
        io != WireKind::Output ==> bind_from(m, alloc, child, instance, conns, io, i, st)->Ok_0.edits
            == st.edits,
        bind_from(m, alloc, child, instance, conns, io, i, st)->Ok_0.net.gates == st.net.gates,
        bind_from(m, alloc, child, instance, conns, io, i, st)->Ok_0.net.wires.len()
            >= st.net.wires.len(),
        ports_fit(
            child.locals,
            bind_from(m, alloc, child, instance, conns, io, i, st)->Ok_0.ports,
            bind_from(m, alloc, child, instance, conns, io, i, st)->Ok_0.net.wires.len(),
        ),
        forall|p: int|
            0 <= p < child.locals.len() && child.locals[p].kind != io ==> #[trigger] bind_from(
                m,
                alloc,
                child,
                instance,
                conns,
                io,
                i,
                st,
            )->Ok_0.ports[p] == st.ports[p],
    decreases conns.len() - i,
{
    if i < conns.len() {
        let r = bind_from(m, alloc, child, instance, conns, io, i, st)->Ok_0;
        let next = bind_one(m, alloc, child, instance, conns[i], io, st)->Ok_0;
        let output = io == WireKind::Output;
        lemma_find_local(child.locals, conns[i].module);
        let p = find_local(child.locals, conns[i].module)->0;
        let first = BusState { bits: Seq::empty(), edits: st.edits, net: st.net };
        let bus = alloc_bus(m, alloc, conns[i].local, output, st.edits, st.net)->Ok_0;
        assert(bus == alloc_bus_from(m, alloc, conns[i].local, output, 0, first)->Ok_0);
        lemma_bus_monotone(m, alloc, conns[i].local, output, 0, first);
        assert(next.ports == st.ports.update(p, bus.bits));
        assert(next.ports.len() == child.locals.len());
        lemma_bind_step_size(m, alloc, child, instance, conns, io, i, next);
        lemma_bus_fits(m, alloc, conns[i].local, output, 0, first, n);
        assert(ports_fit(child.locals, next.ports, next.net.wires.len())) by {
            assert forall|q: int| 0 <= q < child.locals.len() implies (#[trigger] next.ports[q]).len()
                == 0 || next.ports[q].len() == child.locals[q].width by {
                if q != p {
                    assert(next.ports[q] == st.ports[q]);
                }
            }
            assert forall|q: int, b: int| bound_pos(next.ports, q, b) implies #[trigger] next.ports[q][b]
                < next.net.wires.len() by {
                if q != p {
                    assert(next.ports[q] == st.ports[q]);
                    assert(bound_pos(st.ports, q, b));
                }
            }
        }
        lemma_bind_monotone(m, alloc, child, instance, conns, io, i + 1, next, n);
        assert forall|x: int, y: int| valid_pos(m.locals, x, y) implies st.edits[x][y]
            <= #[trigger] r.edits[x][y] by {
            assert(st.edits[x][y] <= next.edits[x][y]);
        }
        assert forall|q: int|
            0 <= q < child.locals.len() && child.locals[q].kind != io implies #[trigger] r.ports[q]
            == st.ports[q] by {
            assert(next.ports[q] == st.ports[q]);
        }
    }
}

/// The netlist after one connection is no larger than after all.
pub proof fn lemma_bind_step_size(
    m: ModuleView,
    alloc: Seq<Seq<usize>>,
    child: ModuleView,
    instance: Seq<char>,
    conns: Seq<ConnectionView>,
    io: WireKind,
    i: int,
    next: BindState,
)
    requires
        0 <= i < conns.len(),
        next.ports.len() == child.locals.len(),
        bind_from(m, alloc, child, instance, conns, io, i + 1, next) is Ok,
    ensures
        next.net.wires.len() <= bind_from(m, alloc, child, instance, conns, io, i + 1, next)->Ok_0.net.wires.len(),
{
    crate::elaboration::lemma_bindings_allocate(m, alloc, child, instance, conns, io, i + 1, next);
    lemma_constants_grow(conns, (i + 1) as nat, conns.len());
}

/// More bindings hold no fewer constant bits.
pub proof fn lemma_constants_grow(conns: Seq<ConnectionView>, a: nat, b: nat)
    requires
        a <= b,
    ensures
        crate::elaboration::binding_constants(conns, a) <= crate::elaboration::binding_constants(
            conns,
            b,
        ),
    decreases b - a,
{
    if a < b {
        lemma_constants_grow(conns, a, (b - 1) as nat);
    }
}

/// Binding the output connections from index `i` on keeps what `ports_inv`
/// says.
pub proof fn lemma_outputs_drive(
    m: ModuleView,
    alloc: Seq<Seq<usize>>,
    child: ModuleView,
    instance: Seq<char>,
    conns: Seq<ConnectionView>,
    i: int,
    st: BindState,
    start: BindState,
    n: nat,
)
    requires
        0 <= i <= conns.len(),
        binding_frame(m, alloc, start, n),
        distinct_ports(conns),
        ports_inv(child.locals, m.locals, alloc, start, conns, i, st),
        ports_fit(child.locals, st.ports, st.net.wires.len()),
        bind_from(m, alloc, child, instance, conns, WireKind::Output, i, st) is Ok,
        bind_from(m, alloc, child, instance, conns, WireKind::Output, i, st)->Ok_0.net.wires.len()
            <= usize::MAX,
        at_most_once(
            m.locals,
            bind_from(m, alloc, child, instance, conns, WireKind::Output, i, st)->Ok_0.edits,
        ),
    ensures
        ports_inv(
            child.locals,
            m.locals,
            alloc,
            start,
            conns,
            conns.len() as int,
            bind_from(m, alloc, child, instance, conns, WireKind::Output, i, st)->Ok_0,
        ),
    decreases conns.len() - i,
{
    if i < conns.len() {
        let r = bind_from(m, alloc, child, instance, conns, WireKind::Output, i, st)->Ok_0;
        let next = bind_one(m, alloc, child, instance, conns[i], WireKind::Output, st)->Ok_0;
        lemma_bind_monotone(m, alloc, child, instance, conns, WireKind::Output, i, st, n);
        lemma_find_local(child.locals, conns[i].module);
        let p = find_local(child.locals, conns[i].module)->0;
        let first = BusState { bits: Seq::empty(), edits: st.edits, net: st.net };
        let bus = alloc_bus(m, alloc, conns[i].local, true, st.edits, st.net)->Ok_0;
        assert(bus == alloc_bus_from(m, alloc, conns[i].local, true, 0, first)->Ok_0);
        lemma_bus_monotone(m, alloc, conns[i].local, true, 0, first);
        assert(next.ports == st.ports.update(p, bus.bits));
        assert(next.ports.len() == child.locals.len());
        lemma_bind_step_size(m, alloc, child, instance, conns, WireKind::Output, i, next);
        lemma_bus_fits(m, alloc, conns[i].local, true, 0, first, n);
        assert(ports_fit(child.locals, next.ports, next.net.wires.len())) by {
            assert forall|q: int| 0 <= q < child.locals.len() implies (#[trigger] next.ports[q]).len()
                == 0 || next.ports[q].len() == child.locals[q].width by {
                if q != p {
                    assert(next.ports[q] == st.ports[q]);
                }
            }
            assert forall|q: int, b: int| bound_pos(next.ports, q, b) implies #[trigger] next.ports[q][b]
                < next.net.wires.len() by {
                if q != p {
                    assert(next.ports[q] == st.ports[q]);
                    assert(bound_pos(st.ports, q, b));
                }
            }
        }
        lemma_bind_monotone(m, alloc, child, instance, conns, WireKind::Output, i + 1, next, n);
        assert(at_most_once(m.locals, next.edits)) by {
            assert forall|x: int, y: int| valid_pos(m.locals, x, y) implies #[trigger] next.edits[x][y]
                <= 1 by {
                assert(next.edits[x][y] <= r.edits[x][y]);
            }
        }
        lemma_bind_one_drives(m, alloc, child, instance, conns, i, st, start, n);
        lemma_outputs_drive(m, alloc, child, instance, conns, i + 1, next, start, n);
    }
}

/// The bits of the output ports lie at pairwise different places.
pub open spec fn outputs_distinct(locals: Seq<WireView>, alloc: Seq<Seq<usize>>) -> bool {
    forall|x: int, y: int, u: int, v: int|
        valid_pos(locals, x, y) && valid_pos(locals, u, v) && locals[x].kind == WireKind::Output
            && locals[u].kind == WireKind::Output && (x != u || y != v) ==> #[trigger] alloc[x][y]
            != #[trigger] alloc[u][v]
}

/// What the binding of an instance hands to the instantiated module: ports
/// that lie in the netlist, and output ports at pairwise different places,
/// each a constant that was just allocated or the place of a wire bit whose
/// driver count rose in the binding; every wire bit whose count rose is
/// bound to an output port.
pub open spec fn bound_well(
    m: ModuleView,
    alloc: Seq<Seq<usize>>,
    child: ModuleView,
    edits: Seq<Seq<usize>>,
    net: NetView,
    bound: BindState,
) -> bool {
    &&& counted(m.locals, bound.edits)
    &&& grows(m.locals, edits, bound.edits)
    &&& bound.net.gates == net.gates
    &&& net.wires.len() <= bound.net.wires.len()
    &&& ports_placed(child.locals, bound.ports, bound.net.wires.len())
    &&& outputs_distinct(child.locals, bound.ports)
    &&& forall|p: int, b: int|
        valid_pos(child.locals, p, b) && child.locals[p].kind == WireKind::Output ==> (
        #[trigger] bound.ports[p][b]) >= net.wires.len() || risen(
            m.locals,
            alloc,
            edits,
            bound.edits,
            bound.ports[p][b],
        )
    &&& forall|x: int, y: int|
        valid_pos(m.locals, x, y) && edits[x][y] < bound.edits[x][y] ==> at_output(
            child.locals,
            bound.ports,
            #[trigger] alloc[x][y],
        )
}

/// `bit` is the place of a bit of an output port.
pub open spec fn at_output(locals: Seq<WireView>, alloc: Seq<Seq<usize>>, bit: usize) -> bool {
    exists|x: int, y: int|
        valid_pos(locals, x, y) && locals[x].kind == WireKind::Output && #[trigger] alloc[x][y]
            == bit
}

/// Binding the ports of an instance yields what `bound_well` says.
pub proof fn lemma_instance_binds(
    m: ModuleView,
    alloc: Seq<Seq<usize>>,
    child: ModuleView,
    inst: InstanceView,
    edits: Seq<Seq<usize>>,
    net: NetView,
    n: nat,
)
    requires
        placed(m.locals, alloc, n),
        n <= net.wires.len(),
        counted(m.locals, edits),
        inputs_marked(m.locals, edits),
        distinct_places(m.locals, alloc),
        distinct_ports(inst.outputs),
        bind_instance(m, alloc, child, inst, edits, net) is Ok,
        bind_instance(m, alloc, child, inst, edits, net)->Ok_0.net.wires.len() <= usize::MAX,
        at_most_once(m.locals, bind_instance(m, alloc, child, inst, edits, net)->Ok_0.edits),
    ensures
        bound_well(m, alloc, child, edits, net, bind_instance(m, alloc, child, inst, edits, net)->Ok_0),
{
    let ports = child.locals;
    let bound = bind_instance(m, alloc, child, inst, edits, net)->Ok_0;
    let first = BindState {
        ports: Seq::new(ports.len(), |i: int| Seq::<usize>::empty()),
        edits,
        net,
    };
    let inputs = bind_from(m, alloc, child, inst.name, inst.inputs, WireKind::Input, 0, first)->Ok_0;
    assert(bound == bind_from(
        m,
        alloc,
        child,
        inst.name,
        inst.outputs,
        WireKind::Output,
        0,
        inputs,
    )->Ok_0);
    assert(ports_fit(ports, first.ports, net.wires.len()));
    crate::elaboration::lemma_bindings_allocate(
        m,
        alloc,
        child,
        inst.name,
        inst.inputs,
        WireKind::Input,
        0,
        first,
    );
    crate::elaboration::lemma_bindings_allocate(
        m,
        alloc,
        child,
        inst.name,
        inst.outputs,
        WireKind::Output,
        0,
        inputs,
    );
    lemma_constants_grow(inst.outputs, 0, inst.outputs.len());
    lemma_bind_monotone(m, alloc, child, inst.name, inst.inputs, WireKind::Input, 0, first, n);
    lemma_bind_monotone(m, alloc, child, inst.name, inst.outputs, WireKind::Output, 0, inputs, n);
    assert(binding_frame(m, alloc, inputs, n));
    assert(ports_inv(ports, m.locals, alloc, inputs, inst.outputs, 0, inputs)) by {
        assert forall|p: int|
            0 <= p < ports.len() && ports[p].kind == WireKind::Output implies (#[trigger] inputs.ports[p]).len()
            == 0 by {
            assert(inputs.ports[p] == first.ports[p]);
        }
    }
    lemma_outputs_drive(m, alloc, child, inst.name, inst.outputs, 0, inputs, inputs, n);
    assert(unbound_port_from(ports, bound.ports, 0) is None);
    assert forall|p: int| 0 <= p < ports.len() && ports[p].kind != WireKind::Private implies (
    #[trigger] bound.ports[p]).len() == ports[p].width by {
        lemma_unbound_none(ports, bound.ports, 0, p);
    }
    assert forall|p: int, b: int|
        0 <= p < ports.len() && ports[p].kind != WireKind::Private && 0 <= b < bound.ports[p].len() implies (
    #[trigger] bound.ports[p][b]) < bound.net.wires.len() by {
        assert(bound_pos(bound.ports, p, b));
    }
    assert forall|x: int, y: int, u: int, v: int|
        valid_pos(ports, x, y) && valid_pos(ports, u, v) && ports[x].kind == WireKind::Output
            && ports[u].kind == WireKind::Output && (x != u || y != v) implies #[trigger] bound.ports[x][y]
        != #[trigger] bound.ports[u][v] by {
        assert(bound.ports[x].len() == ports[x].width);
        assert(bound.ports[u].len() == ports[u].width);
        assert(bound_pos(bound.ports, x, y) && bound_pos(bound.ports, u, v));
    }
    assert forall|p: int, b: int|
        valid_pos(ports, p, b) && ports[p].kind == WireKind::Output implies (
    #[trigger] bound.ports[p][b]) >= net.wires.len() || risen(
        m.locals,
        alloc,
        edits,
        bound.edits,
        bound.ports[p][b],
    ) by {
        assert(bound.ports[p].len() == ports[p].width);
        assert(bound_pos(bound.ports, p, b));
    }
    assert forall|x: int, y: int|
        valid_pos(m.locals, x, y) && edits[x][y] < bound.edits[x][y] implies at_output(
        ports,
        bound.ports,
        #[trigger] alloc[x][y],
    ) by {
        assert(covered(ports, bound.ports, alloc[x][y]));
        let (p, b) = choose|p: int, b: int|
            bound_pos(bound.ports, p, b) && ports[p].kind == WireKind::Output && #[trigger] bound.ports[p][b]
                == alloc[x][y];
        assert(bound.ports[p].len() == ports[p].width);
        assert(valid_pos(ports, p, b) && ports[p].kind == WireKind::Output && bound.ports[p][b]
            == alloc[x][y]);
    }
}

/// Where the driver check finds nothing, every bit counts exactly one
/// driver.
pub proof fn lemma_all_driven(m: ModuleView, edits: Seq<Seq<usize>>, w: int, x: int, y: int)
    requires
        counted(m.locals, edits),
        0 <= w <= x,
        valid_pos(m.locals, x, y),
        driver_error_from(m, edits, w) is None,
    ensures
        edits[x][y] == 1,
    decreases x - w,
{
    if w < x {
        lemma_all_driven(m, edits, w + 1, x, y);
    } else {
        lemma_row_driven(edits[x], 0, y);
    }
}

/// Where a row has no bad bit from `b` on, every bit from there on is 1.
pub proof fn lemma_row_driven(row: Seq<usize>, b: int, y: int)
    requires
        0 <= b <= y < row.len(),
        first_bad_bit(row, b) is None,
    ensures
        row[y] == 1,
    decreases y - b,
{
    if b < y {
        lemma_row_driven(row, b + 1, y);
    }
}

/// Placing the private wires of a module whose ports are placed, with the
/// output ports at pairwise different places, places all wires, those that
/// are not inputs at pairwise different places; the ports stay where they
/// are and the private wires lie in the part of the netlist that is new.
pub proof fn lemma_privates_place(
    locals: Seq<WireView>,
    alloc: Seq<Seq<usize>>,
    net: NetView,
    n: nat,
)
    requires
        n <= locals.len(),
        ports_placed(locals, alloc, net.wires.len()),
        allocate_privates(locals, alloc, net, n).1.wires.len() <= usize::MAX,
    ensures
        allocate_privates(locals, alloc, net, n).0.len() == locals.len(),
        allocate_privates(locals, alloc, net, n).1.gates == net.gates,
        net.wires.len() <= allocate_privates(locals, alloc, net, n).1.wires.len(),
        forall|i: int|
            0 <= i < locals.len() && (n <= i || locals[i].kind != WireKind::Private)
                ==> #[trigger] allocate_privates(locals, alloc, net, n).0[i] == alloc[i],
        forall|i: int|
            0 <= i < n && locals[i].kind == WireKind::Private ==> (#[trigger] allocate_privates(
                locals,
                alloc,
                net,
                n,
            ).0[i]).len() == locals[i].width,
        forall|i: int, b: int|
            0 <= i < n && locals[i].kind == WireKind::Private && 0 <= b < locals[i].width
                ==> net.wires.len() <= (#[trigger] allocate_privates(locals, alloc, net, n).0[i][b])
                < allocate_privates(locals, alloc, net, n).1.wires.len(),
        forall|i: int, b: int, j: int, d: int|
            0 <= i < n && 0 <= j < n && locals[i].kind == WireKind::Private && locals[j].kind
                == WireKind::Private && 0 <= b < locals[i].width && 0 <= d < locals[j].width && (i
                != j || b != d) ==> #[trigger] allocate_privates(locals, alloc, net, n).0[i][b]
                != #[trigger] allocate_privates(locals, alloc, net, n).0[j][d],
    decreases n,
{
    if n > 0 {
        let k = (n - 1) as nat;
        let (a, t) = allocate_privates(locals, alloc, net, k);
        let (a2, t2) = allocate_privates(locals, alloc, net, n);
        crate::elaboration::lemma_privates_allocate(locals, alloc, net, k);
        crate::elaboration::lemma_privates_allocate(locals, alloc, net, n);
        lemma_privates_place(locals, alloc, net, k);
        if locals[k as int].kind == WireKind::Private {
            let fresh = fresh_bits(t.wires.len(), locals[k as int].width);
            assert(a2 == a.update(k as int, fresh));
            assert forall|i: int, b: int|
                0 <= i < n && locals[i].kind == WireKind::Private && 0 <= b < locals[i].width implies net.wires.len()
                <= (#[trigger] a2[i][b]) < t2.wires.len() by {
                if i < k {
                    assert(a2[i] == a[i]);
                    assert(net.wires.len() <= a[i][b] < t.wires.len());
                } else {
                    assert(a2[i][b] == fresh[b]);
                }
            }
            assert forall|i: int, b: int, j: int, d: int|
                0 <= i < n && 0 <= j < n && locals[i].kind == WireKind::Private && locals[j].kind
                    == WireKind::Private && 0 <= b < locals[i].width && 0 <= d < locals[j].width
                    && (i != j || b != d) implies #[trigger] a2[i][b] != #[trigger] a2[j][d] by {
                if i < k {
                    assert(a2[i] == a[i]);
                    assert(net.wires.len() <= a[i][b] < t.wires.len());
                } else {
                    assert(a2[i][b] == fresh[b]);
                }
                if j < k {
                    assert(a2[j] == a[j]);
                    assert(net.wires.len() <= a[j][d] < t.wires.len());
                } else {
                    assert(a2[j][d] == fresh[d]);
                }
            }
        } else {
            assert(a2 == a);
        }
    }
}

/// Some gate from index `from` on drives the wire `bit`.
pub open spec fn driven_by(gates: Seq<GateView>, from: int, bit: usize) -> bool {
    exists|k: int| from <= k < gates.len() && (#[trigger] gates[k]).out == bit
}

/// The wire `out` is the place of a wire bit whose driver count rose.
pub open spec fn gate_risen(
    locals: Seq<WireView>,
    alloc: Seq<Seq<usize>>,
    before: Seq<Seq<usize>>,
    after: Seq<Seq<usize>>,
    out: nat,
) -> bool {
    exists|x: int, y: int|
        valid_pos(locals, x, y) && #[trigger] alloc[x][y] == out && before[x][y] < after[x][y]
}

/// The wire `out` is the place of a bit of an output port.
pub open spec fn gate_at_output(locals: Seq<WireView>, alloc: Seq<Seq<usize>>, out: nat) -> bool {
    exists|x: int, y: int|
        valid_pos(locals, x, y) && locals[x].kind == WireKind::Output && #[trigger] alloc[x][y]
            == out
}

/// `after` holds the gates of `before` and more after them.
pub open spec fn extends_gates(before: Seq<GateView>, after: Seq<GateView>) -> bool {
    &&& before.len() <= after.len()
    &&& forall|k: int| 0 <= k < before.len() ==> #[trigger] after[k] == before[k]
}

/// No two of the gates from index `from` on drive the same wire.
pub open spec fn drivers_differ(gates: Seq<GateView>, from: int) -> bool {
    forall|k: int, j: int|
        from <= k < gates.len() && from <= j < gates.len() && k != j ==> (#[trigger] gates[k]).out != (
        #[trigger] gates[j]).out
}

/// Every bit of every private wire in the elaborated tree `g` of module `m`
/// is driven by a gate from index `from` on.
pub open spec fn tree_driven(
    g: GraphModuleView,
    m: ModuleView,
    modules: Map<Seq<char>, Module>,
    gates: Seq<GateView>,
    from: int,
) -> bool
    decreases g,
{
    m.name != nor_name() ==> {
        &&& forall|x: int, y: int|
            valid_pos(m.locals, x, y) && m.locals[x].kind == WireKind::Private ==> driven_by(
                gates,
                from,
                #[trigger] g.locals[x].values[y],
            )
        &&& forall|i: int|
            0 <= i < g.instances.len() ==> tree_driven(
                #[trigger] g.instances[i],
                modules[m.instances[i].module]@,
                modules,
                gates,
                from,
            )
    }
}

/// A tree that is driven stays driven when gates are added and when gates
/// further down are admitted as drivers.
pub proof fn lemma_tree_driven_more(
    g: GraphModuleView,
    m: ModuleView,
    modules: Map<Seq<char>, Module>,
    gates: Seq<GateView>,
    from: int,
    more: Seq<GateView>,
    lower: int,
)
    requires
        tree_driven(g, m, modules, gates, from),
        extends_gates(gates, more),
        0 <= lower <= from,
    ensures
        tree_driven(g, m, modules, more, lower),
    decreases g,
{
    if m.name != nor_name() {
        assert forall|x: int, y: int|
            valid_pos(m.locals, x, y) && m.locals[x].kind == WireKind::Private implies driven_by(
            more,
            lower,
            #[trigger] g.locals[x].values[y],
        ) by {
            let bit = g.locals[x].values[y];
            assert(driven_by(gates, from, bit));
            let k = choose|k: int| from <= k < gates.len() && (#[trigger] gates[k]).out == bit;
            assert(more[k] == gates[k]);
        }
        assert forall|i: int| 0 <= i < g.instances.len() implies tree_driven(
            #[trigger] g.instances[i],
            modules[m.instances[i].module]@,
            modules,
            more,
            lower,
        ) by {
            lemma_tree_driven_more(
                g.instances[i],
                modules[m.instances[i].module]@,
                modules,
                gates,
                from,
                more,
                lower,
            );
        }
    }
}

/// The name under which a tree is filed does not matter to its drivers.
pub proof fn lemma_tree_driven_name(
    g: GraphModuleView,
    name: Seq<char>,
    m: ModuleView,
    modules: Map<Seq<char>, Module>,
    gates: Seq<GateView>,
    from: int,
)
    requires
        tree_driven(g, m, modules, gates, from),
    ensures
        tree_driven(GraphModuleView { name, ..g }, m, modules, gates, from),
{
    let renamed = GraphModuleView { name, ..g };
    if m.name != nor_name() {
        assert forall|i: int| 0 <= i < renamed.instances.len() implies tree_driven(
            #[trigger] renamed.instances[i],
            modules[m.instances[i].module]@,
            modules,
            gates,
            from,
        ) by {
            assert(renamed.instances[i] == g.instances[i]);
        }
    }
}

/// More instances have allocated no less.
pub proof fn lemma_children_grow(
    graphs: Seq<GraphModuleView>,
    m: ModuleView,
    modules: Map<Seq<char>, Module>,
    a: nat,
    b: nat,
)
    requires
        a <= b <= graphs.len(),
    ensures
        children_bits(graphs, m, modules, a) <= children_bits(graphs, m, modules, b),
    decreases b - a,
{
    if a < b {
        lemma_children_grow(graphs, m, modules, a, (b - 1) as nat);
    }
}

/// How the netlist grows while one instance is linked: binding comes first,
/// then the instantiated module.
pub proof fn lemma_instance_sizes(
    m: ModuleView,
    alloc: Seq<Seq<usize>>,
    modules: Map<Seq<char>, Module>,
    descent: Seq<Seq<char>>,
    inst: InstanceView,
    edits: Seq<Seq<usize>>,
    net: NetView,
)
    requires
        modules_by_name(modules),
        link_instance(m, alloc, modules, descent, inst, edits, net) is Ok,
    ensures
        modules.contains_key(inst.module),
        bind_instance(m, alloc, modules[inst.module]@, inst, edits, net) is Ok,
        !descent.push(m.name).contains(modules[inst.module]@.name),
        link_module(
            modules[inst.module]@,
            bind_instance(m, alloc, modules[inst.module]@, inst, edits, net)->Ok_0.ports,
            modules,
            descent.push(m.name),
            bind_instance(m, alloc, modules[inst.module]@, inst, edits, net)->Ok_0.net,
        ) is Ok,
        net.wires.len() <= bind_instance(
            m,
            alloc,
            modules[inst.module]@,
            inst,
            edits,
            net,
        )->Ok_0.net.wires.len() <= link_instance(
            m,
            alloc,
            modules,
            descent,
            inst,
            edits,
            net,
        )->Ok_0.net.wires.len(),
        link_instance(m, alloc, modules, descent, inst, edits, net)->Ok_0.edits == bind_instance(
            m,
            alloc,
            modules[inst.module]@,
            inst,
            edits,
            net,
        )->Ok_0.edits,
{
    let child = modules[inst.module]@;
    let bound = bind_instance(m, alloc, child, inst, edits, net)->Ok_0;
    lemma_instance_allocates(m, alloc, child, inst, edits, net);
    lemma_module_allocates(child, bound.ports, modules, descent.push(m.name), bound.net);
}

/// Linking instances never lowers a driver count and never shrinks the
/// netlist.
pub proof fn lemma_instances_monotone(
    m: ModuleView,
    alloc: Seq<Seq<usize>>,
    modules: Map<Seq<char>, Module>,
    descent: Seq<Seq<char>>,
    i: int,
    st: LinkState,
    n: nat,
)
    requires
        modules_by_name(modules),
        0 <= i <= m.instances.len(),
        st.graphs.len() == i,
        placed(m.locals, alloc, n),
        n <= st.net.wires.len(),
        counted(m.locals, st.edits),
        link_instances_from(m, alloc, modules, descent, i, st) is Ok,
        link_instances_from(m, alloc, modules, descent, i, st)->Ok_0.net.wires.len() <= usize::MAX,
    ensures
        counted(m.locals, link_instances_from(m, alloc, modules, descent, i, st)->Ok_0.edits),
        grows(m.locals, st.edits, link_instances_from(m, alloc, modules, descent, i, st)->Ok_0.edits),
        st.net.wires.len() <= link_instances_from(
            m,
            alloc,
            modules,
            descent,
            i,
            st,
        )->Ok_0.net.wires.len(),
    decreases m.instances.len() - i,
{
    let done = link_instances_from(m, alloc, modules, descent, i, st)->Ok_0;
    lemma_instances_allocate(m, alloc, modules, descent, i, st);
    lemma_children_grow(done.graphs, m, modules, i as nat, m.instances.len());
    if i < m.instances.len() {
        let inst = m.instances[i];
        let child = modules[inst.module]@;
        let one = link_instance(m, alloc, modules, descent, inst, st.edits, st.net)->Ok_0;
        let next = LinkState { edits: one.edits, net: one.net, graphs: st.graphs.push(one.graph) };
        lemma_instance_sizes(m, alloc, modules, descent, inst, st.edits, st.net);
        lemma_instances_allocate(m, alloc, modules, descent, i + 1, next);
        lemma_children_grow(done.graphs, m, modules, (i + 1) as nat, m.instances.len());
        lemma_binding_grows(m, alloc, child, inst, st.edits, st.net, n);
        lemma_instances_monotone(m, alloc, modules, descent, i + 1, next, n);
        assert forall|x: int, y: int| valid_pos(m.locals, x, y) implies st.edits[x][y]
            <= #[trigger] done.edits[x][y] by {
            assert(st.edits[x][y] <= next.edits[x][y]);
        }
    }
}

/// Binding an instance never lowers a driver count.
pub proof fn lemma_binding_grows(
    m: ModuleView,
    alloc: Seq<Seq<usize>>,
    child: ModuleView,
    inst: InstanceView,
    edits: Seq<Seq<usize>>,
    net: NetView,
    n: nat,
)
    requires
        placed(m.locals, alloc, n),
        n <= net.wires.len(),
        counted(m.locals, edits),
        bind_instance(m, alloc, child, inst, edits, net) is Ok,
        bind_instance(m, alloc, child, inst, edits, net)->Ok_0.net.wires.len() <= usize::MAX,
    ensures
        counted(m.locals, bind_instance(m, alloc, child, inst, edits, net)->Ok_0.edits),
        grows(m.locals, edits, bind_instance(m, alloc, child, inst, edits, net)->Ok_0.edits),
{
    let first = BindState {
        ports: Seq::new(child.locals.len(), |i: int| Seq::<usize>::empty()),
        edits,
        net,
    };
    let inputs = bind_from(m, alloc, child, inst.name, inst.inputs, WireKind::Input, 0, first)->Ok_0;
    assert(ports_fit(child.locals, first.ports, net.wires.len()));
    crate::elaboration::lemma_bindings_allocate(
        m,
        alloc,
        child,
        inst.name,
        inst.inputs,
        WireKind::Input,
        0,
        first,
    );
    crate::elaboration::lemma_bindings_allocate(
        m,
        alloc,
        child,
        inst.name,
        inst.outputs,
        WireKind::Output,
        0,
        inputs,
    );
    lemma_constants_grow(inst.outputs, 0, inst.outputs.len());
    lemma_bind_monotone(m, alloc, child, inst.name, inst.inputs, WireKind::Input, 0, first, n);
    lemma_bind_monotone(m, alloc, child, inst.name, inst.outputs, WireKind::Output, 0, inputs, n);
}

/// Every gate reads and drives wires of the netlist.
pub open spec fn wired(net: NetView) -> bool {
    forall|k: int|
        0 <= k < net.gates.len() ==> {
            &&& (#[trigger] net.gates[k]).in1 < net.wires.len()
            &&& net.gates[k].in2 < net.wires.len()
            &&& net.gates[k].out < net.wires.len()
        }
}

/// No instance of the module binds an output port twice.
pub open spec fn well_bound(m: ModuleView) -> bool {
    forall|i: int| 0 <= i < m.instances.len() ==> distinct_ports((#[trigger] m.instances[i]).outputs)
}

/// No instance of any module binds an output port twice.
pub open spec fn all_well_bound(modules: Map<Seq<char>, Module>) -> bool {
    forall|k: Seq<char>| #[trigger] modules.contains_key(k) ==> well_bound(modules[k]@)
}

/// What a successful link of module `m`, with its ports at `alloc`, has done
/// to the netlist `net`: the gates that were there are still there; every
/// new gate drives a new wire or an output port of `m`; every bit of an
/// output port has a new gate that drives it; no two new gates drive the
/// same wire; and every bit of every private wire in the tree has a new
/// gate that drives it.
pub open spec fn module_drives(
    m: ModuleView,
    alloc: Seq<Seq<usize>>,
    modules: Map<Seq<char>, Module>,
    net: NetView,
    linked: Linked,
) -> bool {
    &&& wired(linked.net)
    &&& extends_gates(net.gates, linked.net.gates)
    &&& net.wires.len() <= linked.net.wires.len()
    &&& forall|k: int|
        net.gates.len() <= k < linked.net.gates.len() ==> (#[trigger] linked.net.gates[k]).out
            >= net.wires.len() || gate_at_output(m.locals, alloc, linked.net.gates[k].out)
    &&& forall|x: int, y: int|
        valid_pos(m.locals, x, y) && m.locals[x].kind == WireKind::Output ==> driven_by(
            linked.net.gates,
            net.gates.len() as int,
            #[trigger] alloc[x][y],
        )
    &&& drivers_differ(linked.net.gates, net.gates.len() as int)
    &&& tree_driven(linked.graph, m, modules, linked.net.gates, net.gates.len() as int)
}

/// What holds after the first `i` instances of module `m` were linked,
/// where `old` are the gates from before the module, and the wires of the
/// module lie at `alloc` in the first `base` wires of the netlist.
pub open spec fn loop_inv(
    m: ModuleView,
    alloc: Seq<Seq<usize>>,
    modules: Map<Seq<char>, Module>,
    base: nat,
    old: Seq<GateView>,
    st: LinkState,
    i: int,
) -> bool {
    &&& counted(m.locals, st.edits)
    &&& grows(m.locals, initial_edits(m.locals), st.edits)
    &&& wired(st.net)
    &&& base <= st.net.wires.len()
    &&& extends_gates(old, st.net.gates)
    &&& st.graphs.len() == i
    &&& forall|k: int|
        old.len() <= k < st.net.gates.len() ==> (#[trigger] st.net.gates[k]).out >= base
            || gate_risen(m.locals, alloc, initial_edits(m.locals), st.edits, st.net.gates[k].out)
    &&& forall|x: int, y: int|
        valid_pos(m.locals, x, y) && initial_edits(m.locals)[x][y] < st.edits[x][y] ==> driven_by(
            st.net.gates,
            old.len() as int,
            #[trigger] alloc[x][y],
        )
    &&& drivers_differ(st.net.gates, old.len() as int)
    &&& forall|j: int|
        0 <= j < i ==> tree_driven(
            #[trigger] st.graphs[j],
            modules[m.instances[j].module]@,
            modules,
            st.net.gates,
            old.len() as int,
        )
}

/// The driver counts of a module start with every input marked.
pub proof fn lemma_initial_marked(locals: Seq<WireView>)
    ensures
        counted(locals, initial_edits(locals)),
        inputs_marked(locals, initial_edits(locals)),
        forall|x: int, y: int|
            valid_pos(locals, x, y) ==> #[trigger] initial_edits(locals)[x][y] == (if locals[x].kind
                == WireKind::Input {
                1usize
            } else {
                0usize
            }),
{
}

/// Linking one more instance keeps what `loop_inv` says.
pub proof fn lemma_step_inv(
    m: ModuleView,
    alloc: Seq<Seq<usize>>,
    modules: Map<Seq<char>, Module>,
    base: nat,
    old: Seq<GateView>,
    st: LinkState,
    i: int,
    child: ModuleView,
    bound: BindState,
    linked: Linked,
    name: Seq<char>,
)
    requires
        0 <= i < m.instances.len(),
        child == modules[m.instances[i].module]@,
        placed(m.locals, alloc, base),
        distinct_places(m.locals, alloc),
        loop_inv(m, alloc, modules, base, old, st, i),
        bound_well(m, alloc, child, st.edits, st.net, bound),
        module_drives(child, bound.ports, modules, bound.net, linked),
        at_most_once(m.locals, bound.edits),
    ensures
        loop_inv(
            m,
            alloc,
            modules,
            base,
            old,
            LinkState {
                edits: bound.edits,
                net: linked.net,
                graphs: st.graphs.push(GraphModuleView { name, ..linked.graph }),
            },
            i + 1,
        ),
{
    let locals = m.locals;
    let init = initial_edits(locals);
    let from = old.len() as int;
    let mid = st.net.gates.len() as int;
    let graph = GraphModuleView { name, ..linked.graph };
    let next = LinkState { edits: bound.edits, net: linked.net, graphs: st.graphs.push(graph) };
    lemma_initial_marked(locals);
    assert(bound.net.gates.len() == mid);
    assert(grows(locals, init, next.edits)) by {
        assert forall|x: int, y: int| valid_pos(locals, x, y) implies init[x][y]
            <= #[trigger] next.edits[x][y] by {
            assert(init[x][y] <= st.edits[x][y]);
            assert(st.edits[x][y] <= bound.edits[x][y]);
        }
    }
    assert(extends_gates(old, next.net.gates)) by {
        assert forall|k: int| 0 <= k < old.len() implies #[trigger] next.net.gates[k] == old[k] by {
            assert(st.net.gates[k] == old[k]);
            assert(linked.net.gates[k] == bound.net.gates[k]);
        }
    }
    assert forall|k: int| from <= k < next.net.gates.len() implies (#[trigger] next.net.gates[k]).out
        >= base || gate_risen(locals, alloc, init, next.edits, next.net.gates[k].out) by {
        lemma_step_class(m, alloc, base, old, st, child, bound, linked, k);
    }
    assert forall|x: int, y: int|
        valid_pos(locals, x, y) && init[x][y] < next.edits[x][y] implies driven_by(
        next.net.gates,
        from,
        #[trigger] alloc[x][y],
    ) by {
        if init[x][y] < st.edits[x][y] {
            assert(driven_by(st.net.gates, from, alloc[x][y]));
            let k = choose|k: int|
                from <= k < st.net.gates.len() && (#[trigger] st.net.gates[k]).out == alloc[x][y];
            assert(linked.net.gates[k] == bound.net.gates[k]);
        } else {
            assert(st.edits[x][y] < bound.edits[x][y]);
            assert(at_output(child.locals, bound.ports, alloc[x][y]));
            let (p, b) = choose|p: int, b: int|
                valid_pos(child.locals, p, b) && child.locals[p].kind == WireKind::Output
                    && #[trigger] bound.ports[p][b] == alloc[x][y];
            assert(driven_by(linked.net.gates, mid, bound.ports[p][b]));
            let k = choose|k: int|
                mid <= k < linked.net.gates.len() && (#[trigger] linked.net.gates[k]).out
                    == bound.ports[p][b];
            assert(from <= k < next.net.gates.len() && next.net.gates[k].out == alloc[x][y]);
        }
    }
    assert forall|k: int, j: int|
        from <= k < next.net.gates.len() && from <= j < next.net.gates.len() && k != j implies (
    #[trigger] next.net.gates[k]).out != (#[trigger] next.net.gates[j]).out by {
        lemma_step_differ(m, alloc, base, old, st, child, bound, linked, k, j);
    }
    assert forall|j: int| 0 <= j < i + 1 implies tree_driven(
        #[trigger] next.graphs[j],
        modules[m.instances[j].module]@,
        modules,
        next.net.gates,
        from,
    ) by {
        if j < i {
            assert(next.graphs[j] == st.graphs[j]);
            assert(extends_gates(st.net.gates, linked.net.gates));
            lemma_tree_driven_more(
                st.graphs[j],
                modules[m.instances[j].module]@,
                modules,
                st.net.gates,
                from,
                next.net.gates,
                from,
            );
        } else {
            assert(next.graphs[j] == graph);
            lemma_tree_driven_more(
                linked.graph,
                child,
                modules,
                linked.net.gates,
                mid,
                linked.net.gates,
                from,
            );
            lemma_tree_driven_name(linked.graph, name, child, modules, linked.net.gates, from);
        }
    }
}

/// After one more instance, every gate of the module drives a wire of its
/// own netlist part or the place of a wire bit whose driver count rose.
pub proof fn lemma_step_class(
    m: ModuleView,
    alloc: Seq<Seq<usize>>,
    base: nat,
    old: Seq<GateView>,
    st: LinkState,
    child: ModuleView,
    bound: BindState,
    linked: Linked,
    k: int,
)
    requires
        old.len() <= st.net.gates.len(),
        base <= st.net.wires.len(),
        grows(m.locals, st.edits, bound.edits),
        forall|j: int|
            old.len() <= j < st.net.gates.len() ==> (#[trigger] st.net.gates[j]).out >= base
                || gate_risen(
                m.locals,
                alloc,
                initial_edits(m.locals),
                st.edits,
                st.net.gates[j].out,
            ),
        grows(m.locals, initial_edits(m.locals), st.edits),
        bound_well(m, alloc, child, st.edits, st.net, bound),
        extends_gates(bound.net.gates, linked.net.gates),
        forall|j: int|
            bound.net.gates.len() <= j < linked.net.gates.len() ==> (#[trigger] linked.net.gates[j]).out
                >= bound.net.wires.len() || gate_at_output(
                child.locals,
                bound.ports,
                linked.net.gates[j].out,
            ),
        old.len() <= k < linked.net.gates.len(),
    ensures
        linked.net.gates[k].out >= base || gate_risen(
            m.locals,
            alloc,
            initial_edits(m.locals),
            bound.edits,
            linked.net.gates[k].out,
        ),
{
    let locals = m.locals;
    let init = initial_edits(locals);
    let out = linked.net.gates[k].out;
    if k < st.net.gates.len() {
        assert(linked.net.gates[k] == bound.net.gates[k]);
        if out < base {
            let (x, y) = choose|x: int, y: int|
                valid_pos(locals, x, y) && #[trigger] alloc[x][y] == out && init[x][y]
                    < st.edits[x][y];
            assert(st.edits[x][y] <= bound.edits[x][y]);
            assert(valid_pos(locals, x, y) && alloc[x][y] == out && init[x][y] < bound.edits[x][y]);
        }
    } else {
        if out < base {
            assert(gate_at_output(child.locals, bound.ports, out));
            let (p, b) = choose|p: int, b: int|
                valid_pos(child.locals, p, b) && child.locals[p].kind == WireKind::Output
                    && #[trigger] bound.ports[p][b] == out;
            assert(risen(locals, alloc, st.edits, bound.edits, bound.ports[p][b]));
            let (x, y) = choose|x: int, y: int|
                valid_pos(locals, x, y) && #[trigger] alloc[x][y] == bound.ports[p][b]
                    && st.edits[x][y] < bound.edits[x][y];
            assert(init[x][y] <= st.edits[x][y]);
            assert(valid_pos(locals, x, y) && alloc[x][y] == out && init[x][y] < bound.edits[x][y]);
        }
    }
}

/// After one more instance, no two gates of the module drive the same wire.
pub proof fn lemma_step_differ(
    m: ModuleView,
    alloc: Seq<Seq<usize>>,
    base: nat,
    old: Seq<GateView>,
    st: LinkState,
    child: ModuleView,
    bound: BindState,
    linked: Linked,
    k: int,
    j: int,
)
    requires
        placed(m.locals, alloc, base),
        distinct_places(m.locals, alloc),
        old.len() <= st.net.gates.len(),
        base <= st.net.wires.len(),
        wired(st.net),
        grows(m.locals, initial_edits(m.locals), st.edits),
        forall|g: int|
            old.len() <= g < st.net.gates.len() ==> (#[trigger] st.net.gates[g]).out >= base
                || gate_risen(
                m.locals,
                alloc,
                initial_edits(m.locals),
                st.edits,
                st.net.gates[g].out,
            ),
        drivers_differ(st.net.gates, old.len() as int),
        bound_well(m, alloc, child, st.edits, st.net, bound),
        at_most_once(m.locals, bound.edits),
        extends_gates(bound.net.gates, linked.net.gates),
        forall|g: int|
            bound.net.gates.len() <= g < linked.net.gates.len() ==> (#[trigger] linked.net.gates[g]).out
                >= bound.net.wires.len() || gate_at_output(
                child.locals,
                bound.ports,
                linked.net.gates[g].out,
            ),
        drivers_differ(linked.net.gates, bound.net.gates.len() as int),
        old.len() <= k < linked.net.gates.len(),
        old.len() <= j < linked.net.gates.len(),
        k != j,
    ensures
        linked.net.gates[k].out != linked.net.gates[j].out,
{
    let locals = m.locals;
    let init = initial_edits(locals);
    let mid = st.net.gates.len() as int;
    lemma_initial_marked(locals);
    if k < mid && j < mid {
        assert(linked.net.gates[k] == bound.net.gates[k]);
        assert(linked.net.gates[j] == bound.net.gates[j]);
    } else if k >= mid && j >= mid {
    } else {
        let (a, b) = if k < mid {
            (k, j)
        } else {
            (j, k)
        };
        assert(linked.net.gates[a] == bound.net.gates[a]);
        let was = st.net.gates[a].out;
        let new = linked.net.gates[b].out;
        assert(was < st.net.wires.len());
        if new < bound.net.wires.len() {
            assert(gate_at_output(child.locals, bound.ports, new));
            let (p, q) = choose|p: int, q: int|
                valid_pos(child.locals, p, q) && child.locals[p].kind == WireKind::Output
                    && #[trigger] bound.ports[p][q] == new;
            if bound.ports[p][q] < st.net.wires.len() {
                assert(risen(locals, alloc, st.edits, bound.edits, bound.ports[p][q]));
                let (x, y) = choose|x: int, y: int|
                    valid_pos(locals, x, y) && #[trigger] alloc[x][y] == bound.ports[p][q]
                        && st.edits[x][y] < bound.edits[x][y];
                assert(bound.edits[x][y] <= 1);
                assert(st.edits[x][y] == 0);
                assert(init[x][y] <= st.edits[x][y]);
                assert(alloc[x].len() == locals[x].width);
                assert(alloc[x][y] < base);
                if was < base {
                    let (u, v) = choose|u: int, v: int|
                        valid_pos(locals, u, v) && #[trigger] alloc[u][v] == was && init[u][v]
                            < st.edits[u][v];
                    assert(st.edits[u][v] <= bound.edits[u][v]);
                    assert(bound.edits[u][v] <= 1);
                    assert(init[u][v] == 0);
                    assert(x != u || y != v);
                    assert(alloc[x][y] != alloc[u][v]);
                }
            }
        }
    }
}

/// What the lemmas on the linking of modules assume of the module table:
/// it holds each module under its name, declares the primitive module
/// properly, and no instance in it binds an output port twice.
pub open spec fn table_ok(modules: Map<Seq<char>, Module>) -> bool {
    &&& modules_by_name(modules)
    &&& nor_declared(modules)
    &&& all_well_bound(modules)
}

/// Linking the instances of `m` from index `i` on keeps what `loop_inv`
/// says.
pub proof fn lemma_instances_drive(
    m: ModuleView,
    alloc: Seq<Seq<usize>>,
    modules: Map<Seq<char>, Module>,
    descent: Seq<Seq<char>>,
    i: int,
    st: LinkState,
    base: nat,
    old: Seq<GateView>,
)
    requires
        table_ok(modules),
        well_bound(m),
        0 <= i <= m.instances.len(),
        placed(m.locals, alloc, base),
        distinct_places(m.locals, alloc),
        loop_inv(m, alloc, modules, base, old, st, i),
        link_instances_from(m, alloc, modules, descent, i, st) is Ok,
        link_instances_from(m, alloc, modules, descent, i, st)->Ok_0.net.wires.len() <= usize::MAX,
        at_most_once(
            m.locals,
            link_instances_from(m, alloc, modules, descent, i, st)->Ok_0.edits,
        ),
    ensures
        loop_inv(
            m,
            alloc,
            modules,
            base,
            old,
            link_instances_from(m, alloc, modules, descent, i, st)->Ok_0,
            m.instances.len() as int,
        ),
    decreases free_modules(modules, descent.push(m.name)).len(), 1nat, m.instances.len() - i,
{
    if i < m.instances.len() {
        let done = link_instances_from(m, alloc, modules, descent, i, st)->Ok_0;
        let inst = m.instances[i];
        let child = modules[inst.module]@;
        let one = link_instance(m, alloc, modules, descent, inst, st.edits, st.net)->Ok_0;
        let next = LinkState { edits: one.edits, net: one.net, graphs: st.graphs.push(one.graph) };
        lemma_instance_sizes(m, alloc, modules, descent, inst, st.edits, st.net);
        let bound = bind_instance(m, alloc, child, inst, st.edits, st.net)->Ok_0;
        let linked = link_module(child, bound.ports, modules, descent.push(m.name), bound.net)->Ok_0;
        assert(one.graph == (GraphModuleView { name: inst.name, ..linked.graph }));
        assert(next.net == linked.net);
        // Sizes: everything lies below the final netlist.
        lemma_instances_allocate(m, alloc, modules, descent, i + 1, next);
        lemma_children_grow(done.graphs, m, modules, (i + 1) as nat, m.instances.len());
        // Driver counts only grow, so none exceeds one on the way.
        lemma_binding_grows(m, alloc, child, inst, st.edits, st.net, base);
        lemma_instances_monotone(m, alloc, modules, descent, i + 1, next, base);
        assert(at_most_once(m.locals, bound.edits)) by {
            assert forall|x: int, y: int| valid_pos(m.locals, x, y) implies #[trigger] bound.edits[x][y]
                <= 1 by {
                assert(bound.edits[x][y] <= done.edits[x][y]);
            }
        }
        lemma_initial_marked(m.locals);
        assert(inputs_marked(m.locals, st.edits)) by {
            assert forall|x: int, y: int|
                valid_pos(m.locals, x, y) && m.locals[x].kind == WireKind::Input implies #[trigger] st.edits[x][y]
                >= 1 by {
                assert(initial_edits(m.locals)[x][y] <= st.edits[x][y]);
            }
        }
        lemma_instance_binds(m, alloc, child, inst, st.edits, st.net, base);
        // The instantiated module.
        lemma_free_modules_push(modules, descent.push(m.name), child.name);
        assert(wired(bound.net)) by {
            assert forall|k: int| 0 <= k < bound.net.gates.len() implies {
                &&& (#[trigger] bound.net.gates[k]).in1 < bound.net.wires.len()
                &&& bound.net.gates[k].in2 < bound.net.wires.len()
                &&& bound.net.gates[k].out < bound.net.wires.len()
            } by {
                assert(bound.net.gates[k] == st.net.gates[k]);
            }
        }
        assert(child.name == inst.module);
        lemma_module_drives(child, bound.ports, modules, descent.push(m.name), bound.net);
        lemma_step_inv(m, alloc, modules, base, old, st, i, child, bound, linked, inst.name);
        lemma_instances_drive(m, alloc, modules, descent, i + 1, next, base, old);
    }
}

/// Driver uniqueness: a successful link of module `m`, whose output ports
/// lie at pairwise different places, adds gates such that no two of them
/// drive the same wire; each drives a wire that the link allocated or an
/// output port of `m`; every bit of an output port and every bit of a
/// private wire in the elaborated tree is driven by one of them.
pub proof fn lemma_module_drives(
    m: ModuleView,
    alloc: Seq<Seq<usize>>,
    modules: Map<Seq<char>, Module>,
    descent: Seq<Seq<char>>,
    net: NetView,
)
    requires
        table_ok(modules),
        well_bound(m),
        m.name == nor_name() ==> is_nor(m),
        ports_placed(m.locals, alloc, net.wires.len()),
        outputs_distinct(m.locals, alloc),
        wired(net),
        link_module(m, alloc, modules, descent, net) is Ok,
        link_module(m, alloc, modules, descent, net)->Ok_0.net.wires.len() <= usize::MAX,
    ensures
        module_drives(m, alloc, modules, net, link_module(m, alloc, modules, descent, net)->Ok_0),
    decreases free_modules(modules, descent.push(m.name)).len(), 2nat, 0nat,
{
    let linked = link_module(m, alloc, modules, descent, net)->Ok_0;
    let from = net.gates.len() as int;
    let locals = m.locals;
    if m.name == nor_name() {
        let out = alloc[2][0];
        assert(linked.net == with_gate(net, alloc[0][0], alloc[1][0], out));
        assert(valid_pos(locals, 0, 0) && valid_pos(locals, 1, 0) && valid_pos(locals, 2, 0));
        assert(locals[2].kind == WireKind::Output);
        assert(alloc[0][0] < net.wires.len() && alloc[1][0] < net.wires.len() && alloc[2][0]
            < net.wires.len());
        assert(linked.net.gates[from].out == out);
        assert forall|k: int| from <= k < linked.net.gates.len() implies (
        #[trigger] linked.net.gates[k]).out >= net.wires.len() || gate_at_output(
            locals,
            alloc,
            linked.net.gates[k].out,
        ) by {
            assert(valid_pos(locals, 2, 0) && locals[2].kind == WireKind::Output && alloc[2][0]
                == linked.net.gates[k].out);
        }
        assert forall|x: int, y: int|
            valid_pos(locals, x, y) && locals[x].kind == WireKind::Output implies driven_by(
            linked.net.gates,
            from,
            #[trigger] alloc[x][y],
        ) by {
            assert(x == 2 && y == 0);
            assert(from <= from < linked.net.gates.len() && linked.net.gates[from].out
                == alloc[x][y]);
        }
    } else {
        let (places, grown) = allocate_privates(locals, alloc, net, locals.len());
        let init = initial_edits(locals);
        let start = LinkState { edits: init, net: grown, graphs: Seq::empty() };
        let done = link_instances_from(m, places, modules, descent, 0, start)->Ok_0;
        let base = grown.wires.len();
        assert(linked.net == done.net);
        crate::elaboration::lemma_privates_allocate(locals, alloc, net, locals.len());
        lemma_instances_allocate(m, places, modules, descent, 0, start);
        lemma_children_grow(done.graphs, m, modules, 0, m.instances.len());
        lemma_privates_place(locals, alloc, net, locals.len());
        lemma_initial_marked(locals);
        assert(placed(locals, places, base)) by {
            assert forall|x: int| 0 <= x < locals.len() implies (#[trigger] places[x]).len()
                == locals[x].width by {
                if locals[x].kind != WireKind::Private {
                    assert(places[x] == alloc[x]);
                }
            }
            assert forall|x: int, y: int|
                0 <= x < locals.len() && 0 <= y < places[x].len() implies (#[trigger] places[x][y])
                < base by {
                if locals[x].kind != WireKind::Private {
                    assert(places[x] == alloc[x]);
                    assert(alloc[x][y] < net.wires.len());
                }
            }
        }
        assert(distinct_places(locals, places)) by {
            assert forall|x: int, y: int, u: int, v: int|
                valid_pos(locals, x, y) && valid_pos(locals, u, v) && locals[x].kind
                    != WireKind::Input && locals[u].kind != WireKind::Input && (x != u || y != v) implies #[trigger] places[x][y]
                != #[trigger] places[u][v] by {
                if locals[x].kind == WireKind::Output {
                    assert(places[x] == alloc[x]);
                    assert(alloc[x][y] < net.wires.len());
                }
                if locals[u].kind == WireKind::Output {
                    assert(places[u] == alloc[u]);
                    assert(alloc[u][v] < net.wires.len());
                }
                if locals[x].kind == WireKind::Private {
                    assert(net.wires.len() <= places[x][y]);
                }
                if locals[u].kind == WireKind::Private {
                    assert(net.wires.len() <= places[u][v]);
                }
            }
        }
        assert(wired(grown)) by {
            assert forall|k: int| 0 <= k < grown.gates.len() implies {
                &&& (#[trigger] grown.gates[k]).in1 < grown.wires.len()
                &&& grown.gates[k].in2 < grown.wires.len()
                &&& grown.gates[k].out < grown.wires.len()
            } by {
                assert(grown.gates[k] == net.gates[k]);
            }
        }
        assert(loop_inv(m, places, modules, base, net.gates, start, 0));
        lemma_instances_monotone(m, places, modules, descent, 0, start, base);
        assert(at_most_once(locals, done.edits)) by {
            assert forall|x: int, y: int| valid_pos(locals, x, y) implies #[trigger] done.edits[x][y]
                <= 1 by {
                lemma_all_driven(m, done.edits, 0, x, y);
            }
        }
        lemma_instances_drive(m, places, modules, descent, 0, start, base, net.gates);
        assert forall|k: int| from <= k < linked.net.gates.len() implies (
        #[trigger] linked.net.gates[k]).out >= net.wires.len() || gate_at_output(
            locals,
            alloc,
            linked.net.gates[k].out,
        ) by {
            let out = linked.net.gates[k].out;
            if out < base {
                assert(gate_risen(locals, places, init, done.edits, out));
                let (x, y) = choose|x: int, y: int|
                    valid_pos(locals, x, y) && #[trigger] places[x][y] == out && init[x][y]
                        < done.edits[x][y];
                lemma_all_driven(m, done.edits, 0, x, y);
                if locals[x].kind == WireKind::Output {
                    assert(places[x] == alloc[x]);
                    assert(valid_pos(locals, x, y) && locals[x].kind == WireKind::Output
                        && alloc[x][y] == out);
                } else {
                    assert(locals[x].kind == WireKind::Private);
                    assert(net.wires.len() <= places[x][y]);
                }
            }
        }
        assert forall|x: int, y: int|
            valid_pos(locals, x, y) && locals[x].kind == WireKind::Output implies driven_by(
            linked.net.gates,
            from,
            #[trigger] alloc[x][y],
        ) by {
            lemma_all_driven(m, done.edits, 0, x, y);
            assert(places[x] == alloc[x]);
            assert(init[x][y] < done.edits[x][y]);
            assert(driven_by(done.net.gates, from, places[x][y]));
        }
        assert(tree_driven(linked.graph, m, modules, linked.net.gates, from)) by {
            let g = linked.graph;
            assert(g.locals == graph_wires(locals, places));
            assert(g.instances == done.graphs);
            assert forall|x: int, y: int|
                valid_pos(locals, x, y) && locals[x].kind == WireKind::Private implies driven_by(
                linked.net.gates,
                from,
                #[trigger] g.locals[x].values[y],
            ) by {
                lemma_all_driven(m, done.edits, 0, x, y);
                assert(g.locals[x].values == places[x]);
                assert(init[x][y] < done.edits[x][y]);
                assert(driven_by(done.net.gates, from, places[x][y]));
            }
        }
    }
}

} // verus!
