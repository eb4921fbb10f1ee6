//! The linker: expands the module hierarchy from a root module into a flat
//! netlist of NOR gates and records the tree of elaborated modules.

use vstd::prelude::*;
use vstd::hash_map::StringHashMap;
use vstd::string::*;
use crate::text::same_text;
use crate::link_error::{
    bad_port_size, bad_port_size_error, bad_range, bad_range_error, duplicate_wire,
    duplicate_wire_error, missing_io, missing_io_error, multiple_drivers, multiple_drivers_error,
    no_driver, no_driver_error, recursion, recursion_error, unknown_local, unknown_local_error,
    unknown_module, unknown_module_error, unknown_port, unknown_port_error, wrong_kind,
    wrong_kind_error, LinkErrorView, LinkResult,
};
use crate::net::{GateView, Net, NetView};
use crate::netgraph::{
    graphs_view, lemma_bounded_grows, lemma_graph_view, GraphModule, GraphModuleView, GraphWire,
    GraphWireView,
};
use crate::parsed::{
    find_local, find_wire, ConnectionView, Instance, InstanceView, Module, ModuleView, WireKind,
    WirePart, WirePartView, WireRange, WireView,
};

verus! {

broadcast use crate::views::group_deep_view;

/// What the evaluation of a bus has produced so far: the netlist indices of
/// its bits, the driver counts of the enclosing module, and the netlist.
pub ghost struct BusState {
    pub bits: Seq<usize>,
    pub edits: Seq<Seq<usize>>,
    pub net: NetView,
}

/// What the binding of an instance's ports has produced so far: the bits of
/// each wire of the instantiated module, the driver counts of the enclosing
/// module, and the netlist.
pub ghost struct BindState {
    pub ports: Seq<Seq<usize>>,
    pub edits: Seq<Seq<usize>>,
    pub net: NetView,
}

/// What the linking of a module's instances has produced so far.
pub ghost struct LinkState {
    pub edits: Seq<Seq<usize>>,
    pub net: NetView,
    pub graphs: Seq<GraphModuleView>,
}

/// The outcome of linking one instance: the driver counts of the enclosing
/// module, the netlist, and the elaborated tree of the instance.
pub ghost struct InstanceLinked {
    pub edits: Seq<Seq<usize>>,
    pub net: NetView,
    pub graph: GraphModuleView,
}

/// The outcome of linking a module: its elaborated tree and the netlist.
pub ghost struct Linked {
    pub graph: GraphModuleView,
    pub net: NetView,
}

/// The name of the primitive module.
pub open spec fn nor_name() -> Seq<char> {
    "Nor"@
}

/// A driver count after one more driver; it stays at the largest number the
/// machine word holds.
pub open spec fn sat_inc(c: usize) -> usize {
    if c < usize::MAX {
        (c + 1) as usize
    } else {
        c
    }
}

/// The driver counts of a module before any instance is bound: every bit of
/// an input counts one driver, from outside; every other bit none.
pub open spec fn initial_edits(locals: Seq<WireView>) -> Seq<Seq<usize>> {
    Seq::new(
        locals.len(),
        |i: int|
            Seq::new(
                locals[i].width,
                |b: int|
                    if locals[i].kind == WireKind::Input {
                        1usize
                    } else {
                        0usize
                    },
            ),
    )
}

/// The half-open range of bits that `range` selects from a wire of the given
/// width, where it lies inside the wire.
pub open spec fn part_span(range: WireRange, width: nat) -> Option<(int, int)> {
    match range {
        WireRange::Total => Some((0, width as int)),
        WireRange::Ranged { from, to } => if from > to || to >= width {
            None
        } else {
            Some((from as int, to + 1))
        },
    }
}

/// `edits` with one more driver on bits `lo..hi` of wire `idx`.
pub open spec fn bump(edits: Seq<Seq<usize>>, idx: int, lo: int, hi: int) -> Seq<Seq<usize>> {
    edits.update(
        idx,
        Seq::new(
            edits[idx].len(),
            |b: int|
                if lo <= b < hi {
                    sat_inc(edits[idx][b])
                } else {
                    edits[idx][b]
                },
        ),
    )
}

/// The indices `start`, `start + 1`, ... of `count` freshly allocated bits.
pub open spec fn fresh_bits(start: nat, count: nat) -> Seq<usize> {
    Seq::new(count, |i: int| (start + i) as usize)
}

/// `net` with the bits of `values` appended to its wires.
pub open spec fn with_wires(net: NetView, values: Seq<bool>) -> NetView {
    NetView { wires: net.wires + values, gates: net.gates }
}

/// Evaluates one part of a bus inside module `m`, whose wires lie at `alloc`.
///
/// A part of a wire yields the wire's bits in the selected range, and on the
/// output side counts one more driver for each; a constant is allocated at
/// the end of the netlist with its bits as values.
pub open spec fn alloc_part(
    m: ModuleView,
    alloc: Seq<Seq<usize>>,
    part: WirePartView,
    output: bool,
    st: BusState,
) -> Result<BusState, LinkErrorView> {
    match part {
        WirePartView::Local { name, range } => match find_local(m.locals, name) {
            None => Err(unknown_local_error(m.name, name)),
            Some(idx) => match part_span(range, m.locals[idx].width) {
                None => Err(
                    bad_range_error(
                        range->from as nat,
                        range->to as nat,
                        m.locals[idx].name,
                        m.locals[idx].width,
                        m.name,
                    ),
                ),
                Some((lo, hi)) => Ok(
                    BusState {
                        bits: st.bits + alloc[idx].subrange(lo, hi),
                        edits: if output {
                            bump(st.edits, idx, lo, hi)
                        } else {
                            st.edits
                        },
                        net: st.net,
                    },
                ),
            },
        },
        WirePartView::Constant(values) => Ok(
            BusState {
                bits: st.bits + fresh_bits(st.net.wires.len(), values.len()),
                edits: st.edits,
                net: with_wires(st.net, values),
            },
        ),
    }
}

/// Evaluates the parts of `bus` from index `i` on, in order; the first part
/// that fails decides the error.
pub open spec fn alloc_bus_from(
    m: ModuleView,
    alloc: Seq<Seq<usize>>,
    bus: Seq<WirePartView>,
    output: bool,
    i: int,
    st: BusState,
) -> Result<BusState, LinkErrorView>
    decreases bus.len() - i,
{
    if i < 0 || i >= bus.len() {
        Ok(st)
    } else {
        match alloc_part(m, alloc, bus[i], output, st) {
            Ok(next) => alloc_bus_from(m, alloc, bus, output, i + 1, next),
            Err(e) => Err(e),
        }
    }
}

/// Evaluates a whole bus, starting with no bits.
pub open spec fn alloc_bus(
    m: ModuleView,
    alloc: Seq<Seq<usize>>,
    bus: Seq<WirePartView>,
    output: bool,
    edits: Seq<Seq<usize>>,
    net: NetView,
) -> Result<BusState, LinkErrorView> {
    alloc_bus_from(m, alloc, bus, output, 0, BusState { bits: Seq::empty(), edits, net })
}

/// Binds one connection of an instance `instance` of `child` inside `m`: the
/// port must exist and have the direction `io`, and the bus must be as wide
/// as the port.
pub open spec fn bind_one(
    m: ModuleView,
    alloc: Seq<Seq<usize>>,
    child: ModuleView,
    instance: Seq<char>,
    conn: ConnectionView,
    io: WireKind,
    st: BindState,
) -> Result<BindState, LinkErrorView> {
    match find_local(child.locals, conn.module) {
        None => Err(unknown_port_error(m.name, instance, conn.module)),
        Some(port) => if child.locals[port].kind != io {
            Err(wrong_kind_error(instance, m.name, conn.module))
        } else {
            match alloc_bus(m, alloc, conn.local, io == WireKind::Output, st.edits, st.net) {
                Err(e) => Err(e),
                Ok(bus) => if bus.bits.len() != child.locals[port].width {
                    Err(
                        bad_port_size_error(
                            conn.module,
                            child.name,
                            child.locals[port].width,
                            bus.bits.len(),
                        ),
                    )
                } else {
                    Ok(
                        BindState {
                            ports: st.ports.update(port, bus.bits),
                            edits: bus.edits,
                            net: bus.net,
                        },
                    )
                },
            }
        },
    }
}

/// Binds the connections `conns` from index `i` on, in order.
pub open spec fn bind_from(
    m: ModuleView,
    alloc: Seq<Seq<usize>>,
    child: ModuleView,
    instance: Seq<char>,
    conns: Seq<ConnectionView>,
    io: WireKind,
    i: int,
    st: BindState,
) -> Result<BindState, LinkErrorView>
    decreases conns.len() - i,
{
    if i < 0 || i >= conns.len() {
        Ok(st)
    } else {
        match bind_one(m, alloc, child, instance, conns[i], io, st) {
            Ok(next) => bind_from(m, alloc, child, instance, conns, io, i + 1, next),
            Err(e) => Err(e),
        }
    }
}

/// The first port at or after index `i` that was left without bits.
pub open spec fn unbound_port_from(locals: Seq<WireView>, ports: Seq<Seq<usize>>, i: int) -> Option<
    int,
>
    decreases locals.len() - i,
{
    if i < 0 || i >= locals.len() {
        None
    } else if locals[i].kind != WireKind::Private && ports[i].len() == 0 {
        Some(i)
    } else {
        unbound_port_from(locals, ports, i + 1)
    }
}

/// Binds all ports of an instance: inputs first, then outputs, then the
/// check that no port was left out.
pub open spec fn bind_instance(
    m: ModuleView,
    alloc: Seq<Seq<usize>>,
    child: ModuleView,
    inst: InstanceView,
    edits: Seq<Seq<usize>>,
    net: NetView,
) -> Result<BindState, LinkErrorView> {
    let start = BindState {
        ports: Seq::new(child.locals.len(), |i: int| Seq::<usize>::empty()),
        edits,
        net,
    };
    match bind_from(m, alloc, child, inst.name, inst.inputs, WireKind::Input, 0, start) {
        Err(e) => Err(e),
        Ok(inputs) => match bind_from(
            m,
            alloc,
            child,
            inst.name,
            inst.outputs,
            WireKind::Output,
            0,
            inputs,
        ) {
            Err(e) => Err(e),
            Ok(bound) => match unbound_port_from(child.locals, bound.ports, 0) {
                Some(port) => Err(missing_io_error(child.locals[port].name, inst.name, m.name)),
                None => Ok(bound),
            },
        },
    }
}

/// Whether some other wire of `locals` has the name of wire `i`.
pub open spec fn has_twin(locals: Seq<WireView>, i: int) -> bool {
    exists|k: int| 0 <= k < locals.len() && k != i && locals[k].name == locals[i].name
}

/// The first wire at or after index `i` whose name is declared twice.
pub open spec fn first_twin_from(locals: Seq<WireView>, i: int) -> Option<int>
    decreases locals.len() - i,
{
    if i < 0 || i >= locals.len() {
        None
    } else if has_twin(locals, i) {
        Some(i)
    } else {
        first_twin_from(locals, i + 1)
    }
}

/// Allocates the private wires among the first `n` wires of a module: each
/// gets a fresh contiguous range of zero bits at the end of the netlist.
pub open spec fn allocate_privates(
    locals: Seq<WireView>,
    alloc: Seq<Seq<usize>>,
    net: NetView,
    n: nat,
) -> (Seq<Seq<usize>>, NetView)
    decreases n,
{
    if n == 0 {
        (alloc, net)
    } else {
        let (a, t) = allocate_privates(locals, alloc, net, (n - 1) as nat);
        let wire = locals[n - 1];
        if wire.kind == WireKind::Private {
            (
                a.update(n - 1, fresh_bits(t.wires.len(), wire.width)),
                with_wires(t, Seq::new(wire.width, |b: int| false)),
            )
        } else {
            (a, t)
        }
    }
}

/// The first bit at or after index `b` of a wire whose driver count is not 1.
pub open spec fn first_bad_bit(row: Seq<usize>, b: int) -> Option<int>
    decreases row.len() - b,
{
    if b < 0 || b >= row.len() {
        None
    } else if row[b] != 1 {
        Some(b)
    } else {
        first_bad_bit(row, b + 1)
    }
}

/// The error for the first bit, from wire `w` on, that is not driven exactly
/// once.
pub open spec fn driver_error_from(m: ModuleView, edits: Seq<Seq<usize>>, w: int) -> Option<
    LinkErrorView,
>
    decreases m.locals.len() - w,
{
    if w < 0 || w >= m.locals.len() {
        None
    } else {
        match first_bad_bit(edits[w], 0) {
            Some(b) => if edits[w][b] > 1 {
                Some(multiple_drivers_error(m.locals[w].name, b as nat, m.name, edits[w][b] as nat))
            } else {
                Some(no_driver_error(m.locals[w].name, b as nat, m.name))
            },
            None => driver_error_from(m, edits, w + 1),
        }
    }
}

/// The elaborated wires of a module whose wires lie at `alloc`.
pub open spec fn graph_wires(locals: Seq<WireView>, alloc: Seq<Seq<usize>>) -> Seq<GraphWireView> {
    Seq::new(locals.len(), |i: int| GraphWireView { name: locals[i].name, values: alloc[i] })
}

/// The elaborated tree of the primitive module with its ports at `a`, `b`
/// and `out`.
pub open spec fn nor_leaf(module_name: Seq<char>, a: usize, b: usize, out: usize) -> GraphModuleView {
    GraphModuleView {
        module_name,
        name: "<nor>"@,
        locals: seq![
            GraphWireView { name: "a"@, values: seq![a] },
            GraphWireView { name: "b"@, values: seq![b] },
            GraphWireView { name: "out"@, values: seq![out] },
        ],
        instances: Seq::empty(),
    }
}

/// `net` with one more NOR gate.
pub open spec fn with_gate(net: NetView, a: usize, b: usize, out: usize) -> NetView {
    NetView {
        wires: net.wires,
        gates: net.gates.push(GateView { in1: a as nat, in2: b as nat, out: out as nat }),
    }
}

/// The module map is finite and holds each module under its own name.
pub open spec fn modules_by_name(modules: Map<Seq<char>, Module>) -> bool {
    &&& modules.dom().finite()
    &&& forall|k: Seq<char>| #[trigger] modules.contains_key(k) ==> modules[k].name@ == k
}

/// The modules that are not on the stack `descent`.
pub open spec fn free_modules(modules: Map<Seq<char>, Module>, descent: Seq<Seq<char>>) -> Set<
    Seq<char>,
> {
    modules.dom().filter(|n: Seq<char>| !descent.contains(n))
}

/// Entering a module that is not on the stack leaves fewer free modules.
pub proof fn lemma_free_modules_push(
    modules: Map<Seq<char>, Module>,
    descent: Seq<Seq<char>>,
    name: Seq<char>,
)
    requires
        modules.dom().finite(),
        modules.contains_key(name),
        !descent.contains(name),
    ensures
        free_modules(modules, descent.push(name)).len() < free_modules(modules, descent).len(),
        free_modules(modules, descent).finite(),
{
    let before = free_modules(modules, descent);
    let after = free_modules(modules, descent.push(name));
    modules.dom().lemma_len_filter(|n: Seq<char>| !descent.contains(n));
    assert(before.contains(name));
    assert(after =~= before.remove(name)) by {
        assert forall|n: Seq<char>| after.contains(n) <==> before.remove(name).contains(n) by {
            if descent.push(name).contains(n) {
                let k = choose|k: int| 0 <= k < descent.push(name).len() && descent.push(name)[k] == n;
                if k < descent.len() {
                    assert(descent[k] == n);
                }
            }
            if descent.contains(n) {
                let k = choose|k: int| 0 <= k < descent.len() && descent[k] == n;
                assert(descent.push(name)[k] == n);
            }
            if n == name {
                assert(descent.push(name)[descent.len() as int] == n);
            }
        }
    }
}

/// Links the instances of module `m` from index `i` on, in order: each is
/// bound to its module's ports and that module is linked below `m`.
pub open spec fn link_instances_from(
    m: ModuleView,
    alloc: Seq<Seq<usize>>,
    modules: Map<Seq<char>, Module>,
    descent: Seq<Seq<char>>,
    i: int,
    st: LinkState,
) -> Result<LinkState, LinkErrorView>
    decreases free_modules(modules, descent.push(m.name)).len(), 1nat, m.instances.len() - i,
    when modules_by_name(modules)
{
    if i < 0 || i >= m.instances.len() {
        Ok(st)
    } else {
        match link_instance(m, alloc, modules, descent, m.instances[i], st.edits, st.net) {
            Ok(one) => link_instances_from(
                m,
                alloc,
                modules,
                descent,
                i + 1,
                LinkState { edits: one.edits, net: one.net, graphs: st.graphs.push(one.graph) },
            ),
            Err(e) => Err(e),
        }
    }
}

/// Links one instance inside module `m`: looks up its module, binds the
/// ports, links the module with `m` added to the stack, and files the
/// resulting tree under the instance's name.
pub open spec fn link_instance(
    m: ModuleView,
    alloc: Seq<Seq<usize>>,
    modules: Map<Seq<char>, Module>,
    descent: Seq<Seq<char>>,
    inst: InstanceView,
    edits: Seq<Seq<usize>>,
    net: NetView,
) -> Result<InstanceLinked, LinkErrorView>
    decreases free_modules(modules, descent.push(m.name)).len(), 0nat, 0nat,
    when modules_by_name(modules)
{
    if !modules.contains_key(inst.module) {
        Err(unknown_module_error(m.name, inst.module))
    } else {
        let child = modules[inst.module]@;
        match bind_instance(m, alloc, child, inst, edits, net) {
            Err(e) => Err(e),
            Ok(bound) => if descent.push(m.name).contains(child.name) {
                Err(recursion_error(child.name))
            } else {
                proof {
                    lemma_free_modules_push(modules, descent.push(m.name), child.name);
                }
                match link_module(child, bound.ports, modules, descent.push(m.name), bound.net) {
                    Err(e) => Err(e),
                    Ok(linked) => Ok(
                        InstanceLinked {
                            edits: bound.edits,
                            net: linked.net,
                            graph: GraphModuleView { name: inst.name, ..linked.graph },
                        },
                    ),
                }
            },
        }
    }
}

/// Links module `m`, whose ports lie at `alloc`, below the stack `descent`.
///
/// A module that is on the stack, or declares a wire name twice, is refused.
/// The primitive module becomes one gate over its three ports. Any other
/// module gets its private wires allocated and its instances linked in
/// order, and then every bit of every wire must be driven exactly once.
pub open spec fn link_module(
    m: ModuleView,
    alloc: Seq<Seq<usize>>,
    modules: Map<Seq<char>, Module>,
    descent: Seq<Seq<char>>,
    net: NetView,
) -> Result<Linked, LinkErrorView>
    decreases free_modules(modules, descent.push(m.name)).len(), 2nat, 0nat,
    when modules_by_name(modules)
{
    if descent.contains(m.name) {
        Err(recursion_error(m.name))
    } else {
        match first_twin_from(m.locals, 0) {
            Some(w) => Err(duplicate_wire_error(m.locals[w].name)),
            None => if m.name == nor_name() {
                Ok(
                    Linked {
                        graph: nor_leaf(m.name, alloc[0][0], alloc[1][0], alloc[2][0]),
                        net: with_gate(net, alloc[0][0], alloc[1][0], alloc[2][0]),
                    },
                )
            } else {
                let (placed, grown) = allocate_privates(m.locals, alloc, net, m.locals.len());
                let start = LinkState {
                    edits: initial_edits(m.locals),
                    net: grown,
                    graphs: Seq::empty(),
                };
                match link_instances_from(m, placed, modules, descent, 0, start) {
                    Err(e) => Err(e),
                    Ok(done) => match driver_error_from(m, done.edits, 0) {
                        Some(e) => Err(e),
                        None => Ok(
                            Linked {
                                graph: GraphModuleView {
                                    module_name: m.name,
                                    name: "<root>"@,
                                    locals: graph_wires(m.locals, placed),
                                    instances: done.graphs,
                                },
                                net: done.net,
                            },
                        ),
                    },
                }
            },
        }
    }
}

/// The wires of a module are placed: there is an entry for each, every wire
/// has as many bits as it is wide, and every bit lies in a netlist of `n`
/// wires. Driver counts have the same shape.
pub open spec fn placed(locals: Seq<WireView>, alloc: Seq<Seq<usize>>, n: nat) -> bool {
    &&& alloc.len() == locals.len()
    &&& forall|i: int| 0 <= i < locals.len() ==> (#[trigger] alloc[i]).len() == locals[i].width
    &&& forall|i: int, b: int|
        0 <= i < locals.len() && 0 <= b < alloc[i].len() ==> (#[trigger] alloc[i][b]) < n
}

/// Driver counts have one entry for each bit of each wire.
pub open spec fn counted(locals: Seq<WireView>, edits: Seq<Seq<usize>>) -> bool {
    &&& edits.len() == locals.len()
    &&& forall|i: int| 0 <= i < locals.len() ==> (#[trigger] edits[i]).len() == locals[i].width
}

/// Whether `name` is on the stack.
fn on_stack(descent: &Vec<String>, name: &String) -> (r: bool)
    ensures
        r == descent.deep_view().contains(name@),
{
    let mut i: usize = 0;
    while i < descent.len()
        invariant
            i <= descent.len(),
            forall|j: int| 0 <= j < i ==> descent.deep_view()[j] != name@,
        decreases descent.len() - i,
    {
        if descent[i] == *name {
            assert(descent.deep_view()[i as int] == name@);
            return true;
        }
        i += 1;
    }
    false
}

/// Refuses a module that declares a wire name twice; the error names the
/// first wire that has a namesake.
#[verifier::loop_isolation(false)]
fn check_duplicate_wires(module: &Module) -> (r: LinkResult<()>)
    ensures
        match r {
            Ok(_) => first_twin_from(module@.locals, 0) is None,
            Err(e) => match first_twin_from(module@.locals, 0) {
                Some(w) => e@ == duplicate_wire_error(module@.locals[w].name),
                None => false,
            },
        },
{
    let ghost locals = module@.locals;
    let count = module.locals.len();
    let mut i: usize = 0;
    while i < count
        invariant
            i <= count,
            count == module.locals.len(),
            locals == module@.locals,
            first_twin_from(locals, 0) == first_twin_from(locals, i as int),
        decreases count - i,
    {
        let mut k: usize = 0;
        while k < count
            invariant
                i < count,
                k <= count,
                count == module.locals.len(),
                locals == module@.locals,
                forall|j: int| 0 <= j < k && j != i ==> locals[j].name != locals[i as int].name,
            decreases count - k,
        {
            assert(locals[k as int] == module.locals@[k as int]@);
            assert(locals[i as int] == module.locals@[i as int]@);
            if module.locals[i].name == module.locals[k].name && i != k {
                proof {
                    assert(locals[k as int] == module.locals@[k as int]@);
                    assert(locals[i as int] == module.locals@[i as int]@);
                    assert(locals[k as int].name == locals[i as int].name);
                    assert(has_twin(locals, i as int));
                    assert(first_twin_from(locals, i as int) == Some(i as int));
                }
                return Err(duplicate_wire(module.locals[i].name.as_str()));
            }
            k += 1;
        }
        assert(!has_twin(locals, i as int));
        i += 1;
    }
    Ok(())
}

/// The driver counts of a module before any instance is bound.
fn fresh_edits(module: &Module) -> (edits: Vec<Vec<usize>>)
    ensures
        edits.deep_view() == initial_edits(module@.locals),
{
    let mut edits: Vec<Vec<usize>> = Vec::new();
    let mut i: usize = 0;
    while i < module.locals.len()
        invariant
            i <= module.locals.len(),
            edits@.len() == i,
            forall|j: int| 0 <= j < i ==> (#[trigger] edits@[j])@ == initial_edits(module@.locals)[j],
        decreases module.locals.len() - i,
    {
        let start: usize = if module.locals[i].kind == WireKind::Input {
            1
        } else {
            0
        };
        let row = vec![start; module.locals[i].width];
        assert(row@ =~= initial_edits(module@.locals)[i as int]);
        edits.push(row);
        i += 1;
    }
    assert(edits.deep_view() =~= initial_edits(module@.locals));
    edits
}

/// Evaluates a bus of `module` to the netlist indices of its bits.
///
/// On the output side every bit taken from a wire counts one more driver.
/// Constants are allocated in the netlist and set to their values.
#[verifier::loop_isolation(false)]
fn alloc_wirebus(
    module: &Module,
    alloc: &Vec<Vec<usize>>,
    edits: &mut Vec<Vec<usize>>,
    net: &mut Net,
    bus: &Vec<WirePart>,
    output: bool,
) -> (r: LinkResult<Vec<usize>>)
    requires
        placed(module@.locals, alloc.deep_view(), old(net)@.wires.len()),
        counted(module@.locals, old(edits).deep_view()),
        old(net)@.wf(),
    ensures
        match r {
            Ok(bits) => {
                &&& alloc_bus(
                    module@,
                    alloc.deep_view(),
                    bus.deep_view(),
                    output,
                    old(edits).deep_view(),
                    old(net)@,
                ) == Ok::<BusState, LinkErrorView>(
                    BusState {
                        bits: bits@,
                        edits: final(edits).deep_view(),
                        net: final(net)@,
                    },
                )
                &&& forall|b: int| 0 <= b < bits@.len() ==> (#[trigger] bits@[b]) < final(net)@.wires.len()
            },
            Err(e) => alloc_bus(
                module@,
                alloc.deep_view(),
                bus.deep_view(),
                output,
                old(edits).deep_view(),
                old(net)@,
            ) == Err::<BusState, LinkErrorView>(e@),
        },
        counted(module@.locals, final(edits).deep_view()),
        final(net)@.wf(),
        final(net)@.gates == old(net)@.gates,
        final(net)@.wires.len() >= old(net)@.wires.len(),
{
    let ghost m = module@;
    let ghost places = alloc.deep_view();
    let ghost parts = bus.deep_view();
    let ghost goal = alloc_bus(m, places, parts, output, old(edits).deep_view(), old(net)@);
    let mut bits: Vec<usize> = Vec::new();
    let mut p: usize = 0;
    while p < bus.len()
        invariant
            p <= bus.len(),
            m == module@,
            places == alloc.deep_view(),
            parts == bus.deep_view(),
            placed(m.locals, places, net@.wires.len()),
            counted(m.locals, edits.deep_view()),
            net@.wf(),
            net@.gates == old(net)@.gates,
            net@.wires.len() >= old(net)@.wires.len(),
            forall|b: int| 0 <= b < bits@.len() ==> (#[trigger] bits@[b]) < net@.wires.len(),
            goal == alloc_bus_from(
                m,
                places,
                parts,
                output,
                p as int,
                BusState { bits: bits@, edits: edits.deep_view(), net: net@ },
            ),
        decreases bus.len() - p,
    {
        let ghost before = BusState { bits: bits@, edits: edits.deep_view(), net: net@ };
        assert(parts[p as int] == bus@[p as int]@);
        match &bus[p] {
            WirePart::Local { name, range } => {
                match find_wire(&module.locals, name) {
                    None => {
                        proof {
                            assert(alloc_part(m, places, parts[p as int], output, before) == Err::<
                                BusState,
                                LinkErrorView,
                            >(unknown_local_error(m.name, name@)));
                        }
                        return Err(unknown_local(module.name.as_str(), name.as_str()));
                    },
                    Some(idx) => {
                        let width = module.locals[idx].width;
                        let (lo, hi) = match range {
                            WireRange::Ranged { from, to } => {
                                if *from > *to || *to >= width {
                                    return Err(
                                        bad_range(
                                            *from,
                                            *to,
                                            module.locals[idx].name.as_str(),
                                            width,
                                            module.name.as_str(),
                                        ),
                                    );
                                }
                                (*from, *to + 1)
                            },
                            WireRange::Total => (0, width),
                        };
                        assert(part_span(*range, m.locals[idx as int].width) == Some(
                            (lo as int, hi as int),
                        ));
                        let ghost row = edits.deep_view()[idx as int];
                        let mut b: usize = lo;
                        assert(bump(before.edits, idx as int, lo as int, lo as int) =~~= before.edits);
                        assert(bits@ =~= before.bits + places[idx as int].subrange(lo as int, lo as int));
                        while b < hi
                            invariant
                                lo <= b <= hi,
                                hi <= m.locals[idx as int].width,
                                idx < m.locals.len(),
                                m == module@,
                                places == alloc.deep_view(),
                                placed(m.locals, places, net@.wires.len()),
                                counted(m.locals, edits.deep_view()),
                                row == before.edits[idx as int],
                                forall|j: int| 0 <= j < bits@.len() ==> (#[trigger] bits@[j]) < net@.wires.len(),
                                bits@ == before.bits + places[idx as int].subrange(lo as int, b as int),
                                edits.deep_view() == (if output {
                                    bump(before.edits, idx as int, lo as int, b as int)
                                } else {
                                    before.edits
                                }),
                            decreases hi - b,
                        {
                            assert(places[idx as int] == alloc@[idx as int]@);
                            assert(edits.deep_view()[idx as int] == edits@[idx as int]@);
                            assert(edits.deep_view()[idx as int].len() == m.locals[idx as int].width);
                            bits.push(alloc[idx][b]);
                            if output {
                                let ghost prev = edits.deep_view();
                                let count = edits[idx][b];
                                edits[idx][b] = count.saturating_add(1);
                                proof {
                                    let cur = edits.deep_view();
                                    let want = bump(before.edits, idx as int, lo as int, b + 1);
                                    assert(cur.len() == want.len());
                                    assert forall|j: int| 0 <= j < cur.len() implies cur[j] =~= want[j] by {
                                        assert(cur[j] == edits@[j]@);
                                        assert(prev[j] == bump(
                                            before.edits,
                                            idx as int,
                                            lo as int,
                                            b as int,
                                        )[j]);
                                    }
                                    assert(cur =~= want);
                                }
                            }
                            b += 1;
                            assert(bits@ =~= before.bits + places[idx as int].subrange(
                                lo as int,
                                b as int,
                            ));
                        }
                    },
                }
            },
            WirePart::Constant(values) => {
                let ghost old_wires = net@.wires;
                let begin = net.allocate_wire(values.len());
                let mut k: usize = 0;
                while k < values.len()
                    invariant
                        k <= values.len(),
                        begin == old_wires.len(),
                        begin + values.len() <= usize::MAX,
                        old_wires == before.net.wires,
                        net@.gates == old(net)@.gates,
                        net@.wires.len() == old_wires.len() + values@.len(),
                        net@.wires == old_wires + values@.take(k as int) + Seq::new(
                            (values@.len() - k) as nat,
                            |i: int| false,
                        ),
                        forall|j: int| 0 <= j < bits@.len() ==> (#[trigger] bits@[j]) < net@.wires.len(),
                        bits@ == before.bits + fresh_bits(old_wires.len(), k as nat),
                    decreases values.len() - k,
                {
                    bits.push(begin + k);
                    net.set_value(begin + k, values[k]);
                    k += 1;
                    assert(net@.wires =~= old_wires + values@.take(k as int) + Seq::new(
                        (values@.len() - k) as nat,
                        |i: int| false,
                    ));
                    assert(bits@ =~= before.bits + fresh_bits(old_wires.len(), k as nat));
                }
                assert(net@.wires =~= old_wires + values@);
                assert(net@ == with_wires(before.net, values@));
            },
        }
        p += 1;
    }
    Ok(bits)
}

/// The ports bound so far lie in a netlist of `n` wires; a bound wire is a
/// port and has as many bits as it is wide.
pub open spec fn bound_ok(locals: Seq<WireView>, ports: Seq<Seq<usize>>, n: nat) -> bool {
    &&& ports.len() == locals.len()
    &&& forall|i: int|
        0 <= i < locals.len() ==> (#[trigger] ports[i]).len() == 0 || (locals[i].kind
            != WireKind::Private && ports[i].len() == locals[i].width)
    &&& forall|i: int, b: int|
        0 <= i < locals.len() && 0 <= b < ports[i].len() ==> (#[trigger] ports[i][b]) < n
}

/// The ports of a module are placed: there is an entry for each wire, and
/// every port has as many bits as it is wide, all in a netlist of `n` wires.
pub open spec fn ports_placed(locals: Seq<WireView>, alloc: Seq<Seq<usize>>, n: nat) -> bool {
    &&& alloc.len() == locals.len()
    &&& forall|i: int|
        0 <= i < locals.len() && locals[i].kind != WireKind::Private ==> (#[trigger] alloc[i]).len()
            == locals[i].width
    &&& forall|i: int, b: int|
        0 <= i < locals.len() && locals[i].kind != WireKind::Private && 0 <= b < alloc[i].len()
            ==> (#[trigger] alloc[i][b]) < n
}

/// The connections of an instance on the side `io`.
pub open spec fn connections(inst: InstanceView, io: WireKind) -> Seq<ConnectionView> {
    if io == WireKind::Input {
        inst.inputs
    } else {
        inst.outputs
    }
}

/// Binds the connections of `instance` on the side `io` to the ports of
/// `child`, evaluating each bus inside `module`.
#[verifier::loop_isolation(false)]
fn link_instance_io(
    module: &Module,
    alloc: &Vec<Vec<usize>>,
    edits: &mut Vec<Vec<usize>>,
    net: &mut Net,
    child: &Module,
    instance: &Instance,
    ports: &mut Vec<Vec<usize>>,
    io: WireKind,
) -> (r: LinkResult<()>)
    requires
        io != WireKind::Private,
        placed(module@.locals, alloc.deep_view(), old(net)@.wires.len()),
        counted(module@.locals, old(edits).deep_view()),
        old(net)@.wf(),
        bound_ok(child@.locals, old(ports).deep_view(), old(net)@.wires.len()),
    ensures
        match r {
            Ok(_) => bind_from(
                module@,
                alloc.deep_view(),
                child@,
                instance@.name,
                connections(instance@, io),
                io,
                0,
                BindState {
                    ports: old(ports).deep_view(),
                    edits: old(edits).deep_view(),
                    net: old(net)@,
                },
            ) == Ok::<BindState, LinkErrorView>(
                BindState {
                    ports: final(ports).deep_view(),
                    edits: final(edits).deep_view(),
                    net: final(net)@,
                },
            ),
            Err(e) => bind_from(
                module@,
                alloc.deep_view(),
                child@,
                instance@.name,
                connections(instance@, io),
                io,
                0,
                BindState {
                    ports: old(ports).deep_view(),
                    edits: old(edits).deep_view(),
                    net: old(net)@,
                },
            ) == Err::<BindState, LinkErrorView>(e@),
        },
        counted(module@.locals, final(edits).deep_view()),
        final(net)@.wf(),
        final(net)@.gates == old(net)@.gates,
        final(net)@.wires.len() >= old(net)@.wires.len(),
        bound_ok(child@.locals, final(ports).deep_view(), final(net)@.wires.len()),
{
    let ghost m = module@;
    let ghost places = alloc.deep_view();
    let ghost c = child@;
    let ghost conns = connections(instance@, io);
    let ghost goal = bind_from(
        m,
        places,
        c,
        instance@.name,
        conns,
        io,
        0,
        BindState { ports: old(ports).deep_view(), edits: old(edits).deep_view(), net: old(net)@ },
    );
    let list = match io {
        WireKind::Input => &instance.inputs,
        _ => &instance.outputs,
    };
    assert(list.deep_view() == conns);
    let mut k: usize = 0;
    while k < list.len()
        invariant
            k <= list.len(),
            placed(m.locals, places, net@.wires.len()),
            counted(m.locals, edits.deep_view()),
            net@.wf(),
            net@.gates == old(net)@.gates,
            net@.wires.len() >= old(net)@.wires.len(),
            bound_ok(c.locals, ports.deep_view(), net@.wires.len()),
            goal == bind_from(
                m,
                places,
                c,
                instance@.name,
                conns,
                io,
                k as int,
                BindState { ports: ports.deep_view(), edits: edits.deep_view(), net: net@ },
            ),
        decreases list.len() - k,
    {
        let conn = &list[k];
        let ghost before = BindState { ports: ports.deep_view(), edits: edits.deep_view(), net: net@ };
        assert(conns[k as int] == conn@);
        let port = match find_wire(&child.locals, &conn.module) {
            Some(port) => port,
            None => {
                return Err(
                    unknown_port(
                        module.name.as_str(),
                        instance.name.as_str(),
                        conn.module.as_str(),
                    ),
                );
            },
        };
        assert(c.locals[port as int] == child.locals@[port as int]@);
        if child.locals[port].kind != io {
            return Err(
                wrong_kind(instance.name.as_str(), module.name.as_str(), conn.module.as_str()),
            );
        }
        let bits = match alloc_wirebus(
            module,
            alloc,
            edits,
            net,
            &conn.local,
            io == WireKind::Output,
        ) {
            Ok(bits) => bits,
            Err(e) => {
                return Err(e);
            },
        };
        if bits.len() != child.locals[port].width {
            return Err(
                bad_port_size(
                    conn.module.as_str(),
                    child.name.as_str(),
                    child.locals[port].width,
                    bits.len(),
                ),
            );
        }
        let ghost row = bits@;
        let ghost prev = ports.deep_view();
        ports[port] = bits;
        proof {
            assert(ports.deep_view() =~= prev.update(port as int, row));
            let cur = ports.deep_view();
            assert forall|i: int| 0 <= i < c.locals.len() implies (#[trigger] cur[i]).len() == 0 || (
            c.locals[i].kind != WireKind::Private && cur[i].len() == c.locals[i].width) by {
                if i != port {
                    assert(cur[i] == prev[i]);
                }
            }
            assert forall|i: int, b: int|
                0 <= i < c.locals.len() && 0 <= b < cur[i].len() implies (#[trigger] cur[i][b])
                < net@.wires.len() by {
                if i != port {
                    assert(cur[i] == prev[i]);
                    assert(prev[i][b] < before.net.wires.len());
                } else {
                    assert(row[b] < net@.wires.len());
                }
            }
        }
        k += 1;
    }
    Ok(())
}

/// The first port of `child` that `ports` leaves without bits.
fn first_unbound(child: &Module, ports: &Vec<Vec<usize>>) -> (r: Option<usize>)
    requires
        ports@.len() == child.locals@.len(),
    ensures
        match r {
            Some(i) => i < child.locals@.len() && unbound_port_from(
                child@.locals,
                ports.deep_view(),
                0,
            ) == Some(i as int),
            None => unbound_port_from(child@.locals, ports.deep_view(), 0) is None,
        },
{
    let mut i: usize = 0;
    while i < child.locals.len()
        invariant
            i <= child.locals.len(),
            ports@.len() == child.locals@.len(),
            unbound_port_from(child@.locals, ports.deep_view(), 0) == unbound_port_from(
                child@.locals,
                ports.deep_view(),
                i as int,
            ),
        decreases child.locals.len() - i,
    {
        assert(child@.locals[i as int] == child.locals@[i as int]@);
        assert(ports.deep_view()[i as int] == ports@[i as int]@);
        if child.locals[i].kind != WireKind::Private && ports[i].len() == 0 {
            return Some(i);
        }
        i += 1;
    }
    None
}

/// `count` empty port entries.
fn no_ports(count: usize) -> (ports: Vec<Vec<usize>>)
    ensures
        ports.deep_view() == Seq::new(count as nat, |i: int| Seq::<usize>::empty()),
{
    let mut ports: Vec<Vec<usize>> = Vec::new();
    let mut i: usize = 0;
    while i < count
        invariant
            i <= count,
            ports@.len() == i,
            forall|j: int| 0 <= j < i ==> (#[trigger] ports@[j])@ == Seq::<usize>::empty(),
        decreases count - i,
    {
        ports.push(Vec::new());
        i += 1;
    }
    assert(ports.deep_view() =~= Seq::new(count as nat, |i: int| Seq::<usize>::empty()));
    ports
}

/// Binds every port of `instance`, an instance of `child` inside `module`:
/// the result holds the netlist indices of each port of `child`.
fn bind_ports(
    module: &Module,
    alloc: &Vec<Vec<usize>>,
    edits: &mut Vec<Vec<usize>>,
    net: &mut Net,
    child: &Module,
    instance: &Instance,
) -> (r: LinkResult<Vec<Vec<usize>>>)
    requires
        placed(module@.locals, alloc.deep_view(), old(net)@.wires.len()),
        counted(module@.locals, old(edits).deep_view()),
        old(net)@.wf(),
    ensures
        match r {
            Ok(ports) => {
                &&& bind_instance(
                    module@,
                    alloc.deep_view(),
                    child@,
                    instance@,
                    old(edits).deep_view(),
                    old(net)@,
                ) == Ok::<BindState, LinkErrorView>(
                    BindState {
                        ports: ports.deep_view(),
                        edits: final(edits).deep_view(),
                        net: final(net)@,
                    },
                )
                &&& ports_placed(child@.locals, ports.deep_view(), final(net)@.wires.len())
            },
            Err(e) => bind_instance(
                module@,
                alloc.deep_view(),
                child@,
                instance@,
                old(edits).deep_view(),
                old(net)@,
            ) == Err::<BindState, LinkErrorView>(e@),
        },
        counted(module@.locals, final(edits).deep_view()),
        final(net)@.wf(),
        final(net)@.gates == old(net)@.gates,
        final(net)@.wires.len() >= old(net)@.wires.len(),
{
    let mut ports = no_ports(child.locals.len());
    match link_instance_io(module, alloc, edits, net, child, instance, &mut ports, WireKind::Input) {
        Ok(_) => {},
        Err(e) => {
            return Err(e);
        },
    }
    proof {
        lemma_placed_grows(module@.locals, alloc.deep_view(), old(net)@.wires.len(), net@.wires.len());
    }
    match link_instance_io(
        module,
        alloc,
        edits,
        net,
        child,
        instance,
        &mut ports,
        WireKind::Output,
    ) {
        Ok(_) => {},
        Err(e) => {
            return Err(e);
        },
    }
    match first_unbound(child, &ports) {
        Some(port) => {
            assert(child@.locals[port as int] == child.locals@[port as int]@);
            Err(
                missing_io(
                    child.locals[port].name.as_str(),
                    instance.name.as_str(),
                    module.name.as_str(),
                ),
            )
        },
        None => {
            proof {
                let locals = child@.locals;
                let bound = ports.deep_view();
                assert forall|i: int|
                    0 <= i < locals.len() && locals[i].kind != WireKind::Private implies (
                #[trigger] bound[i]).len() == locals[i].width by {
                    lemma_unbound_none(locals, bound, 0, i);
                }
            }
            Ok(ports)
        },
    }
}

/// Wires that are placed in a netlist stay placed when the netlist grows.
pub proof fn lemma_placed_grows(locals: Seq<WireView>, alloc: Seq<Seq<usize>>, n: nat, more: nat)
    requires
        placed(locals, alloc, n),
        n <= more,
    ensures
        placed(locals, alloc, more),
{
    assert forall|i: int, b: int|
        0 <= i < locals.len() && 0 <= b < alloc[i].len() implies (#[trigger] alloc[i][b]) < more by {
        assert(alloc[i][b] < n);
    }
}

/// Where no port is unbound from `from` on, every port from there on has bits.
pub proof fn lemma_unbound_none(locals: Seq<WireView>, ports: Seq<Seq<usize>>, from: int, i: int)
    requires
        0 <= from <= i < locals.len(),
        unbound_port_from(locals, ports, from) is None,
    ensures
        locals[i].kind != WireKind::Private ==> ports[i].len() != 0,
    decreases i - from,
{
    if from < i {
        lemma_unbound_none(locals, ports, from + 1, i);
    }
}

/// The declaration of the primitive module: inputs `a` and `b` and output
/// `out`, one bit each, and no body.
pub open spec fn is_nor(m: ModuleView) -> bool {
    &&& m.name == nor_name()
    &&& m.locals == seq![
        WireView { name: "a"@, width: 1, kind: WireKind::Input },
        WireView { name: "b"@, width: 1, kind: WireKind::Input },
        WireView { name: "out"@, width: 1, kind: WireKind::Output },
    ]
    &&& m.instances.len() == 0
}

/// If the map holds the primitive module, it holds its proper declaration.
pub open spec fn nor_declared(modules: Map<Seq<char>, Module>) -> bool {
    modules.contains_key(nor_name()) ==> is_nor(modules[nor_name()]@)
}

/// The indices `begin`, `begin + 1`, ... of `width` bits.
fn range_bits(begin: usize, width: usize) -> (r: Vec<usize>)
    requires
        begin + width <= usize::MAX,
    ensures
        r@ == fresh_bits(begin as nat, width as nat),
{
    let mut bits: Vec<usize> = Vec::new();
    let mut k: usize = 0;
    while k < width
        invariant
            k <= width,
            begin + width <= usize::MAX,
            bits@ == fresh_bits(begin as nat, k as nat),
        decreases width - k,
    {
        bits.push(begin + k);
        k += 1;
        assert(bits@ =~= fresh_bits(begin as nat, k as nat));
    }
    bits
}

/// Allocates the private wires of `module` in the netlist, in source order.
#[verifier::loop_isolation(false)]
fn place_privates(module: &Module, alloc: &mut Vec<Vec<usize>>, net: &mut Net)
    requires
        ports_placed(module@.locals, old(alloc).deep_view(), old(net)@.wires.len()),
        old(net)@.wf(),
    ensures
        (final(alloc).deep_view(), final(net)@) == allocate_privates(
            module@.locals,
            old(alloc).deep_view(),
            old(net)@,
            module@.locals.len(),
        ),
        placed(module@.locals, final(alloc).deep_view(), final(net)@.wires.len()),
        final(net)@.wf(),
        final(net)@.gates == old(net)@.gates,
        final(net)@.wires.len() >= old(net)@.wires.len(),
{
    let ghost locals = module@.locals;
    let ghost start = old(alloc).deep_view();
    let mut idx: usize = 0;
    while idx < module.locals.len()
        invariant
            idx <= module.locals.len(),
            alloc@.len() == locals.len(),
            (alloc.deep_view(), net@) == allocate_privates(locals, start, old(net)@, idx as nat),
            net@.wf(),
            net@.gates == old(net)@.gates,
            net@.wires.len() >= old(net)@.wires.len(),
            forall|i: int| 0 <= i < idx ==> (#[trigger] alloc.deep_view()[i]).len() == locals[i].width,
            forall|i: int, b: int|
                0 <= i < idx && 0 <= b < alloc.deep_view()[i].len() ==> (
                #[trigger] alloc.deep_view()[i][b]) < net@.wires.len(),
            forall|i: int| idx <= i < locals.len() ==> (#[trigger] alloc.deep_view()[i]) == start[i],
        decreases module.locals.len() - idx,
    {
        assert(locals[idx as int] == module.locals@[idx as int]@);
        let ghost prev = alloc.deep_view();
        let ghost before = net@;
        if module.locals[idx].kind == WireKind::Private {
            let width = module.locals[idx].width;
            let begin = net.allocate_wire(width);
            let bits = range_bits(begin, width);
            let ghost row = bits@;
            alloc[idx] = bits;
            proof {
                let cur = alloc.deep_view();
                assert(cur =~= prev.update(idx as int, row));
                assert(net@ == with_wires(before, Seq::new(width as nat, |b: int| false)));
                assert forall|i: int, b: int| 0 <= i < idx + 1 && 0 <= b < cur[i].len() implies (
                #[trigger] cur[i][b]) < net@.wires.len() by {
                    if i < idx {
                        assert(cur[i] == prev[i]);
                        assert(prev[i][b] < before.wires.len());
                    }
                }
                assert forall|i: int| 0 <= i < idx + 1 implies (#[trigger] cur[i]).len()
                    == locals[i].width by {
                    if i < idx {
                        assert(cur[i] == prev[i]);
                    }
                }
                assert forall|i: int| idx + 1 <= i < locals.len() implies (#[trigger] cur[i])
                    == start[i] by {
                    assert(cur[i] == prev[i]);
                }
            }
        } else {
            proof {
                assert(prev[idx as int] == start[idx as int]);
                assert forall|b: int| 0 <= b < prev[idx as int].len() implies (
                #[trigger] prev[idx as int][b]) < net@.wires.len() by {
                    assert(start[idx as int][b] < old(net)@.wires.len());
                }
            }
        }
        idx += 1;
    }
}

/// Checks that every bit of every wire of `module` is driven exactly once.
#[verifier::loop_isolation(false)]
fn check_drivers(module: &Module, edits: &Vec<Vec<usize>>) -> (r: LinkResult<()>)
    requires
        counted(module@.locals, edits.deep_view()),
    ensures
        match r {
            Ok(_) => driver_error_from(module@, edits.deep_view(), 0) is None,
            Err(e) => driver_error_from(module@, edits.deep_view(), 0) == Some(e@),
        },
{
    let ghost m = module@;
    let ghost counts = edits.deep_view();
    let mut w: usize = 0;
    while w < module.locals.len()
        invariant
            w <= module.locals.len(),
            driver_error_from(m, counts, 0) == driver_error_from(m, counts, w as int),
        decreases module.locals.len() - w,
    {
        assert(m.locals[w as int] == module.locals@[w as int]@);
        assert(counts[w as int] == edits@[w as int]@);
        let row = &edits[w];
        let mut b: usize = 0;
        while b < row.len()
            invariant
                b <= row.len(),
                first_bad_bit(row@, 0) == first_bad_bit(row@, b as int),
            decreases row.len() - b,
        {
            let count = row[b];
            if count > 1 {
                return Err(
                    multiple_drivers(
                        module.locals[w].name.as_str(),
                        b,
                        module.name.as_str(),
                        count,
                    ),
                );
            } else if count < 1 {
                return Err(no_driver(module.locals[w].name.as_str(), b, module.name.as_str()));
            }
            b += 1;
        }
        w += 1;
    }
    Ok(())
}

/// The elaborated wires of `module`, whose wires lie at `alloc`.
#[verifier::loop_isolation(false)]
fn graph_locals(module: &Module, alloc: &Vec<Vec<usize>>) -> (r: Vec<GraphWire>)
    requires
        alloc@.len() == module.locals@.len(),
    ensures
        r.deep_view() == graph_wires(module@.locals, alloc.deep_view()),
{
    let mut wires: Vec<GraphWire> = Vec::new();
    let mut i: usize = 0;
    while i < module.locals.len()
        invariant
            i <= module.locals.len(),
            wires@.len() == i,
            forall|j: int|
                0 <= j < i ==> (#[trigger] wires@[j])@ == graph_wires(
                    module@.locals,
                    alloc.deep_view(),
                )[j],
        decreases module.locals.len() - i,
    {
        assert(module@.locals[i as int] == module.locals@[i as int]@);
        assert(alloc.deep_view()[i as int] == alloc@[i as int]@);
        let values = alloc[i].clone();
        assert(values@ =~= alloc@[i as int]@);
        wires.push(GraphWire { name: module.locals[i].name.clone(), values });
        i += 1;
    }
    assert(wires.deep_view() =~= graph_wires(module@.locals, alloc.deep_view()));
    wires
}

/// An elaborated wire of one bit.
fn single_wire(name: &str, bit: usize) -> (r: GraphWire)
    ensures
        r@ == (GraphWireView { name: name@, values: seq![bit] }),
{
    let mut values: Vec<usize> = Vec::new();
    values.push(bit);
    assert(values@ =~= seq![bit]);
    GraphWire { name: name.to_owned(), values }
}

/// The gates of `before` are still in `after`, in their places.
pub open spec fn keeps_gates(before: NetView, after: NetView) -> bool {
    &&& before.gates.len() <= after.gates.len()
    &&& forall|k: int| 0 <= k < before.gates.len() ==> #[trigger] after.gates[k] == before.gates[k]
}

/// The names on the stack `before` are still on the stack `after`, in their
/// places.
pub open spec fn keeps_stack(before: Seq<Seq<char>>, after: Seq<Seq<char>>) -> bool {
    &&& before.len() <= after.len()
    &&& forall|k: int| 0 <= k < before.len() ==> #[trigger] after[k] == before[k]
}

/// The state of linking one module: the module and its wires' places, the
/// map of all modules, the driver counts, the stack of modules being linked
/// further up, and the netlist under construction.
pub struct Linker<'a> {
    /// Module that is being linked.
    pub module: &'a Module,
    /// Where the bits of each wire of the module lie in the netlist.
    pub allocated_wires: &'a mut Vec<Vec<usize>>,
    /// All modules, by name.
    pub modules: &'a StringHashMap<Module>,
    /// How many drivers each bit of each wire has.
    pub wire_edits: Vec<Vec<usize>>,
    /// Names of the modules being linked further up.
    pub descent: &'a mut Vec<String>,
    /// The netlist under construction.
    pub net: &'a mut Net,
}

impl<'a> Linker<'a> {
    /// What `link` needs of a linker: the module map holds each module under
    /// its name and declares the primitive module properly, the ports of the
    /// module lie in the netlist, nothing is bound yet, and the module is
    /// not on the stack and declares no wire name twice.
    pub open spec fn ready(&self) -> bool {
        &&& modules_by_name(self.modules@)
        &&& nor_declared(self.modules@)
        &&& self.module@.name == nor_name() ==> is_nor(self.module@)
        &&& (*self.net)@.wf()
        &&& ports_placed(
            self.module@.locals,
            self.allocated_wires.deep_view(),
            (*self.net)@.wires.len(),
        )
        &&& self.wire_edits.deep_view() == initial_edits(self.module@.locals)
        &&& first_twin_from(self.module@.locals, 0) is None
        &&& !self.descent.deep_view().contains(self.module@.name)
    }

    /// Prepares the linking of `module`, whose ports lie at `allocated_wires`.
    ///
    /// A module that is on the stack `descent` is refused as recursive, and
    /// one that declares a wire name twice is refused for that.
    pub fn new(
        module: &'a Module,
        allocated_wires: &'a mut Vec<Vec<usize>>,
        modules: &'a StringHashMap<Module>,
        descent: &'a mut Vec<String>,
        net: &'a mut Net,
    ) -> (r: LinkResult<Self>)
        ensures
            match r {
                Ok(linker) => {
                    &&& !old(descent).deep_view().contains(module@.name)
                    &&& first_twin_from(module@.locals, 0) is None
                    &&& linker.module == module
                    &&& linker.modules == modules
                    &&& linker.wire_edits.deep_view() == initial_edits(module@.locals)
                    &&& *linker.allocated_wires == *old(allocated_wires)
                    &&& *linker.descent == *old(descent)
                    &&& *linker.net == *old(net)
                    &&& *final(allocated_wires) == *final(linker.allocated_wires)
                    &&& *final(descent) == *final(linker.descent)
                    &&& *final(net) == *final(linker.net)
                },
                Err(e) => {
                    &&& if old(descent).deep_view().contains(module@.name) {
                        e@ == recursion_error(module@.name)
                    } else {
                        match first_twin_from(module@.locals, 0) {
                            Some(w) => e@ == duplicate_wire_error(module@.locals[w].name),
                            None => false,
                        }
                    }
                    &&& *final(allocated_wires) == *old(allocated_wires)
                    &&& *final(descent) == *old(descent)
                    &&& *final(net) == *old(net)
                },
            },
    {
        if on_stack(descent, &module.name) {
            return Err(recursion(module.name.as_str()));
        }
        match check_duplicate_wires(module) {
            Ok(_) => {},
            Err(e) => {
                return Err(e);
            },
        }
        let wire_edits = fresh_edits(module);
        Ok(Self { module, allocated_wires, modules, wire_edits, descent, net })
    }

    /// What holds while the instances of the module are being linked: the
    /// module map is in order, every wire of the module is placed, and there
    /// is a driver count for each bit.
    pub open spec fn underway(&self) -> bool {
        &&& modules_by_name(self.modules@)
        &&& nor_declared(self.modules@)
        &&& (*self.net)@.wf()
        &&& placed(self.module@.locals, self.allocated_wires.deep_view(), (*self.net)@.wires.len())
        &&& counted(self.module@.locals, self.wire_edits.deep_view())
        &&& !self.descent.deep_view().contains(self.module@.name)
    }

    /// The base case: the primitive module becomes one gate over its ports.
    fn link_nor(&mut self) -> (graph: GraphModule)
        requires
            old(self).ready(),
            old(self).module@.name == nor_name(),
        ensures
            final(self).module == old(self).module,
            final(self).modules == old(self).modules,
            *final(final(self).allocated_wires) == *final(old(self).allocated_wires),
            *final(final(self).descent) == *final(old(self).descent),
            *final(final(self).net) == *final(old(self).net),
            link_module(
                old(self).module@,
                old(self).allocated_wires.deep_view(),
                old(self).modules@,
                old(self).descent.deep_view(),
                (*old(self).net)@,
            ) == Ok::<Linked, LinkErrorView>(Linked { graph: graph@, net: (*final(self).net)@ }),
            final(self).descent.deep_view() == old(self).descent.deep_view(),
            (*final(self).net)@.wf(),
            (*final(self).net)@.wires.len() >= (*old(self).net)@.wires.len(),
            graph@.bounded((*final(self).net)@.wires.len()),
    {
        let ghost m = self.module@;
        let ghost places = self.allocated_wires.deep_view();
        assert(places[0] == self.allocated_wires@[0]@);
        assert(places[1] == self.allocated_wires@[1]@);
        assert(places[2] == self.allocated_wires@[2]@);
        assert(places[0][0] < (*self.net)@.wires.len());
        assert(places[1][0] < (*self.net)@.wires.len());
        assert(places[2][0] < (*self.net)@.wires.len());
        let a = self.allocated_wires[0][0];
        let b = self.allocated_wires[1][0];
        let out = self.allocated_wires[2][0];
        self.net.create_nor(a, b, out);
        let mut locals: Vec<GraphWire> = Vec::new();
        locals.push(single_wire("a", a));
        locals.push(single_wire("b", b));
        locals.push(single_wire("out", out));
        let graph = GraphModule {
            module_name: self.module.name.clone(),
            name: String::from_str("<nor>"),
            instances: Vec::new(),
            locals,
        };
        proof {
            lemma_graph_view(graph);
            let leaf = nor_leaf(m.name, a, b, out);
            assert(graph@.locals =~= leaf.locals);
            assert(graph@.instances =~= leaf.instances);
            assert(graph@ == leaf);
            assert((*self.net)@ == with_gate((*old(self).net)@, a, b, out));
            assert(leaf.bounded((*self.net)@.wires.len())) by {
                assert forall|w: int, k: int|
                    0 <= w < leaf.locals.len() && 0 <= k < leaf.locals[w].values.len() implies
                    #[trigger] leaf.locals[w].values[k] < (*self.net)@.wires.len() by {
                    if w == 0 {
                    } else if w == 1 {
                    } else {
                    }
                }
            }
        }
        graph
    }

    /// Links one instance of the module: looks up the instantiated module,
    /// binds its ports, links it with this module added to the stack, and
    /// names the resulting tree after the instance.
    fn link_instance(&mut self, instance: &Instance) -> (r: LinkResult<GraphModule>)
        requires
            old(self).underway(),
        ensures
            final(self).module == old(self).module,
            final(self).modules == old(self).modules,
            *final(final(self).allocated_wires) == *final(old(self).allocated_wires),
            *final(final(self).descent) == *final(old(self).descent),
            *final(final(self).net) == *final(old(self).net),
            (*final(self).net)@.wf(),
            (*final(self).net)@.wires.len() >= (*old(self).net)@.wires.len(),
            keeps_gates((*old(self).net)@, (*final(self).net)@),
            keeps_stack(old(self).descent.deep_view(), final(self).descent.deep_view()),
            match r {
                Ok(graph) => {
                    &&& link_instance(
                        old(self).module@,
                        old(self).allocated_wires.deep_view(),
                        old(self).modules@,
                        old(self).descent.deep_view(),
                        instance@,
                        old(self).wire_edits.deep_view(),
                        (*old(self).net)@,
                    ) == Ok::<InstanceLinked, LinkErrorView>(
                        InstanceLinked {
                            edits: final(self).wire_edits.deep_view(),
                            net: (*final(self).net)@,
                            graph: graph@,
                        },
                    )
                    &&& final(self).underway()
                    &&& final(self).allocated_wires.deep_view() == old(self).allocated_wires.deep_view()
                    &&& final(self).descent.deep_view() == old(self).descent.deep_view()
                    &&& (*final(self).net)@.wires.len() >= (*old(self).net)@.wires.len()
                    &&& graph@.bounded((*final(self).net)@.wires.len())
                },
                Err(e) => link_instance(
                    old(self).module@,
                    old(self).allocated_wires.deep_view(),
                    old(self).modules@,
                    old(self).descent.deep_view(),
                    instance@,
                    old(self).wire_edits.deep_view(),
                    (*old(self).net)@,
                ) == Err::<InstanceLinked, LinkErrorView>(e@),
            },
        decreases
            free_modules(
                old(self).modules@,
                old(self).descent.deep_view().push(old(self).module@.name),
            ).len(),
            0nat,
    {
        let ghost m = self.module@;
        let ghost modules = self.modules@;
        let ghost stack = self.descent.deep_view();
        let ghost places = self.allocated_wires.deep_view();
        let child = match self.modules.get(instance.module.as_str()) {
            Some(child) => child,
            None => {
                return Err(unknown_module(self.module.name.as_str(), instance.module.as_str()));
            },
        };
        let mut ports = match bind_ports(
            self.module,
            self.allocated_wires,
            &mut self.wire_edits,
            self.net,
            child,
            instance,
        ) {
            Ok(ports) => ports,
            Err(e) => {
                return Err(e);
            },
        };
        let ghost bound = BindState {
            ports: ports.deep_view(),
            edits: self.wire_edits.deep_view(),
            net: (*self.net)@,
        };
        self.descent.push(self.module.name.clone());
        assert(self.descent.deep_view() =~= stack.push(m.name));
        let mut graph = {
            let mut module_linker = match Linker::new(
                child,
                &mut ports,
                self.modules,
                self.descent,
                self.net,
            ) {
                Ok(linker) => linker,
                Err(e) => {
                    return Err(e);
                },
            };
            proof {
                lemma_free_modules_push(modules, stack.push(m.name), child@.name);
            }
            match module_linker.link() {
                Ok(graph) => graph,
                Err(e) => {
                    return Err(e);
                },
            }
        };
        let ghost linked = Linked { graph: graph@, net: (*self.net)@ };
        proof {
            lemma_graph_view(graph);
        }
        graph.name = instance.name.clone();
        proof {
            lemma_graph_view(graph);
            assert(graph@ == (GraphModuleView { name: instance@.name, ..linked.graph }));
            lemma_placed_grows(m.locals, places, bound.net.wires.len(), (*self.net)@.wires.len());
        }
        let ghost pushed = *self.descent;
        assert(pushed.deep_view() == stack.push(m.name));
        self.descent.pop();
        proof {
            assert(self.descent@ == pushed@.drop_last());
            assert forall|k: int| 0 <= k < stack.len() implies self.descent.deep_view()[k]
                == stack[k] by {
                assert(self.descent@[k] == pushed@[k]);
                assert(pushed.deep_view()[k] == stack.push(m.name)[k]);
            }
            assert(self.descent.deep_view() =~= stack);
        }
        Ok(graph)
    }

    /// Links the module: the netlist receives its gates and the result is
    /// its elaborated tree.
    #[verifier::loop_isolation(false)]
    pub fn link(&mut self) -> (r: LinkResult<GraphModule>)
        requires
            old(self).ready(),
        ensures
            final(self).module == old(self).module,
            final(self).modules == old(self).modules,
            *final(final(self).allocated_wires) == *final(old(self).allocated_wires),
            *final(final(self).descent) == *final(old(self).descent),
            *final(final(self).net) == *final(old(self).net),
            (*final(self).net)@.wf(),
            (*final(self).net)@.wires.len() >= (*old(self).net)@.wires.len(),
            keeps_gates((*old(self).net)@, (*final(self).net)@),
            keeps_stack(old(self).descent.deep_view(), final(self).descent.deep_view()),
            match r {
                Ok(graph) => {
                    &&& link_module(
                        old(self).module@,
                        old(self).allocated_wires.deep_view(),
                        old(self).modules@,
                        old(self).descent.deep_view(),
                        (*old(self).net)@,
                    ) == Ok::<Linked, LinkErrorView>(
                        Linked { graph: graph@, net: (*final(self).net)@ },
                    )
                    &&& final(self).descent.deep_view() == old(self).descent.deep_view()
                    &&& (*final(self).net)@.wf()
                    &&& (*final(self).net)@.wires.len() >= (*old(self).net)@.wires.len()
                    &&& graph@.bounded((*final(self).net)@.wires.len())
                },
                Err(e) => link_module(
                    old(self).module@,
                    old(self).allocated_wires.deep_view(),
                    old(self).modules@,
                    old(self).descent.deep_view(),
                    (*old(self).net)@,
                ) == Err::<Linked, LinkErrorView>(e@),
            },
        decreases
            free_modules(
                old(self).modules@,
                old(self).descent.deep_view().push(old(self).module@.name),
            ).len(),
            1nat,
    {
        let ghost m = self.module@;
        let ghost modules = self.modules@;
        let ghost stack = self.descent.deep_view();
        if on_stack(self.descent, &self.module.name) {
            return Err(recursion(self.module.name.as_str()));
        }
        if same_text(self.module.name.as_str(), "Nor") {
            return Ok(self.link_nor());
        }
        place_privates(self.module, self.allocated_wires, self.net);
        let ghost places = self.allocated_wires.deep_view();
        let ghost start = LinkState {
            edits: initial_edits(m.locals),
            net: (*self.net)@,
            graphs: Seq::empty(),
        };
        let mut graph_instances: Vec<GraphModule> = Vec::new();
        assert(graphs_view(graph_instances@) =~= start.graphs);
        let mut i: usize = 0;
        while i < self.module.instances.len()
            invariant
                i <= self.module.instances.len(),
                self.module == old(self).module,
                self.modules == old(self).modules,
                *final(self.allocated_wires) == *final(old(self).allocated_wires),
                *final(self.descent) == *final(old(self).descent),
                *final(self.net) == *final(old(self).net),
                self.allocated_wires.deep_view() == places,
                self.descent.deep_view() == stack,
                self.underway(),
                keeps_gates((*old(self).net)@, (*self.net)@),
                (*self.net)@.wires.len() >= (*old(self).net)@.wires.len(),
                forall|k: int|
                    0 <= k < graph_instances@.len() ==> (#[trigger] graph_instances@[k])@.bounded(
                        (*self.net)@.wires.len(),
                    ),
                link_instances_from(m, places, modules, stack, 0, start) == link_instances_from(
                    m,
                    places,
                    modules,
                    stack,
                    i as int,
                    LinkState {
                        edits: self.wire_edits.deep_view(),
                        net: (*self.net)@,
                        graphs: graphs_view(graph_instances@),
                    },
                ),
            decreases self.module.instances.len() - i,
        {
            let instance = &self.module.instances[i];
            let ghost before = LinkState {
                edits: self.wire_edits.deep_view(),
                net: (*self.net)@,
                graphs: graphs_view(graph_instances@),
            };
            assert(m.instances[i as int] == instance@);
            let graph = match self.link_instance(instance) {
                Ok(graph) => graph,
                Err(e) => {
                    return Err(e);
                },
            };
            proof {
                assert forall|k: int| 0 <= k < graph_instances@.len() implies (
                #[trigger] graph_instances@[k])@.bounded((*self.net)@.wires.len()) by {
                    lemma_bounded_grows(
                        graph_instances@[k]@,
                        before.net.wires.len(),
                        (*self.net)@.wires.len(),
                    );
                }
            }
            graph_instances.push(graph);
            assert(graphs_view(graph_instances@) =~= before.graphs.push(graph@));
            i += 1;
        }
        match check_drivers(self.module, &self.wire_edits) {
            Ok(_) => {},
            Err(e) => {
                return Err(e);
            },
        }
        let locals = graph_locals(self.module, self.allocated_wires);
        let graph = GraphModule {
            module_name: self.module.name.clone(),
            name: String::from_str("<root>"),
            instances: graph_instances,
            locals,
        };
        proof {
            lemma_graph_view(graph);
        }
        Ok(graph)
    }
}

} // verus!
