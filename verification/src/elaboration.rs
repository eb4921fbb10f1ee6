//! What linking allocates: every bit that a successful link adds to the
//! netlist is a bit of exactly one private wire of the elaborated tree, or a
//! bit of a constant in a port binding.

use vstd::prelude::*;
use crate::link::{
    alloc_bus_from, alloc_part, allocate_privates, bind_from, bind_instance, bind_one,
    free_modules, initial_edits, lemma_free_modules_push, link_instance, link_instances_from,
    link_module, modules_by_name, nor_name, BindState, BusState, LinkState,
};

use crate::net::NetView;
use crate::netgraph::GraphModuleView;
use crate::parsed::{
    ConnectionView, InstanceView, Module, ModuleView, WireKind, WirePartView, WireView,
};

verus! {

/// The number of bits of the constants among the first `n` parts of a bus.
pub open spec fn constant_bits(bus: Seq<WirePartView>, n: nat) -> nat
    decreases n,
{
    if n == 0 {
        0
    } else {
        constant_bits(bus, (n - 1) as nat) + (match bus[n - 1] {
            WirePartView::Constant(values) => values.len(),
            _ => 0nat,
        })
    }
}

/// The number of bits of the constants in the first `n` of the bindings.
pub open spec fn binding_constants(conns: Seq<ConnectionView>, n: nat) -> nat
    decreases n,
{
    if n == 0 {
        0
    } else {
        binding_constants(conns, (n - 1) as nat) + constant_bits(
            conns[n - 1].local,
            conns[n - 1].local.len(),
        )
    }
}

/// The number of bits of the constants in the bindings of an instance.
pub open spec fn instance_constants(inst: InstanceView) -> nat {
    binding_constants(inst.inputs, inst.inputs.len()) + binding_constants(
        inst.outputs,
        inst.outputs.len(),
    )
}

/// The number of bits of the private wires among the first `n` wires of an
/// elaborated module `g` that was declared as `m`.
pub open spec fn owned_bits(g: GraphModuleView, m: ModuleView, n: nat) -> nat
    decreases n,
{
    if n == 0 {
        0
    } else {
        owned_bits(g, m, (n - 1) as nat) + (if m.locals[n - 1].kind == WireKind::Private {
            g.locals[n - 1].values.len()
        } else {
            0nat
        })
    }
}

/// The number of bits that the elaboration of module `m` to the tree `g` has
/// allocated: the bits of its private wires, the constants in the bindings
/// of its instances, and what the elaboration of each instance allocated.
/// The primitive module allocates nothing.
pub open spec fn tree_bits(g: GraphModuleView, m: ModuleView, modules: Map<Seq<char>, Module>) -> nat
    decreases g, 0nat,
{
    if m.name == nor_name() {
        0
    } else {
        owned_bits(g, m, m.locals.len()) + children_bits(
            g.instances,
            m,
            modules,
            g.instances.len(),
        )
    }
}

/// What the first `n` instances of module `m` have allocated, where
/// `graphs` holds their elaborated trees.
pub open spec fn children_bits(
    graphs: Seq<GraphModuleView>,
    m: ModuleView,
    modules: Map<Seq<char>, Module>,
    n: nat,
) -> nat
    decreases graphs, n,
{
    if n == 0 || n > graphs.len() {
        0
    } else {
        children_bits(graphs, m, modules, (n - 1) as nat) + instance_constants(m.instances[n - 1])
            + tree_bits(graphs[n - 1], modules[m.instances[n - 1].module]@, modules)
    }
}

/// The name under which a tree is filed does not change what it allocated.
pub proof fn lemma_tree_bits_name(
    g: GraphModuleView,
    name: Seq<char>,
    m: ModuleView,
    modules: Map<Seq<char>, Module>,
)
    ensures
        tree_bits(GraphModuleView { name, ..g }, m, modules) == tree_bits(g, m, modules),
{
    let renamed = GraphModuleView { name, ..g };
    lemma_owned_same(g, renamed, m, m.locals.len());
}

/// The bits of private wires depend on the wires of the tree only.
pub proof fn lemma_owned_same(g: GraphModuleView, other: GraphModuleView, m: ModuleView, n: nat)
    requires
        g.locals == other.locals,
    ensures
        owned_bits(g, m, n) == owned_bits(other, m, n),
    decreases n,
{
    if n > 0 {
        lemma_owned_same(g, other, m, (n - 1) as nat);
    }
}

/// Evaluating a bus adds the bits of its constants to the netlist, and no
/// gate.
pub proof fn lemma_bus_allocates(
    m: ModuleView,
    alloc: Seq<Seq<usize>>,
    bus: Seq<WirePartView>,
    output: bool,
    i: int,
    st: BusState,
)
    requires
        0 <= i <= bus.len(),
        alloc_bus_from(m, alloc, bus, output, i, st) is Ok,
    ensures
        alloc_bus_from(m, alloc, bus, output, i, st)->Ok_0.net.gates == st.net.gates,
        alloc_bus_from(m, alloc, bus, output, i, st)->Ok_0.net.wires.len() + constant_bits(
            bus,
            i as nat,
        ) == st.net.wires.len() + constant_bits(bus, bus.len()),
    decreases bus.len() - i,
{
    if i < bus.len() {
        let next = alloc_part(m, alloc, bus[i], output, st)->Ok_0;
        lemma_bus_allocates(m, alloc, bus, output, i + 1, next);
    }
}

/// Binding connections adds the bits of their constants to the netlist, and
/// no gate.
pub proof fn lemma_bindings_allocate(
    m: ModuleView,
    alloc: Seq<Seq<usize>>,
    child: ModuleView,
    instance: Seq<char>,
    conns: Seq<ConnectionView>,
    io: WireKind,
    i: int,
    st: BindState,
)
    requires
        0 <= i <= conns.len(),
        st.ports.len() == child.locals.len(),
        bind_from(m, alloc, child, instance, conns, io, i, st) is Ok,
    ensures
        bind_from(m, alloc, child, instance, conns, io, i, st)->Ok_0.ports.len() == st.ports.len(),
        bind_from(m, alloc, child, instance, conns, io, i, st)->Ok_0.net.gates == st.net.gates,
        bind_from(m, alloc, child, instance, conns, io, i, st)->Ok_0.net.wires.len()
            + binding_constants(conns, i as nat) == st.net.wires.len() + binding_constants(
            conns,
            conns.len(),
        ),
    decreases conns.len() - i,
{
    if i < conns.len() {
        let next = bind_one(m, alloc, child, instance, conns[i], io, st)->Ok_0;
        crate::parsed::lemma_find_local(child.locals, conns[i].module);
        lemma_bus_allocates(
            m,
            alloc,
            conns[i].local,
            io == WireKind::Output,
            0,
            BusState { bits: Seq::empty(), edits: st.edits, net: st.net },
        );
        lemma_bindings_allocate(m, alloc, child, instance, conns, io, i + 1, next);
    }
}

/// Binding an instance adds the bits of the constants in its bindings to
/// the netlist, and no gate.
pub proof fn lemma_instance_allocates(
    m: ModuleView,
    alloc: Seq<Seq<usize>>,
    child: ModuleView,
    inst: InstanceView,
    edits: Seq<Seq<usize>>,
    net: NetView,
)
    requires
        bind_instance(m, alloc, child, inst, edits, net) is Ok,
    ensures
        bind_instance(m, alloc, child, inst, edits, net)->Ok_0.ports.len() == child.locals.len(),
        bind_instance(m, alloc, child, inst, edits, net)->Ok_0.net.gates == net.gates,
        bind_instance(m, alloc, child, inst, edits, net)->Ok_0.net.wires.len() == net.wires.len()
            + instance_constants(inst),
{
    let start = BindState {
        ports: Seq::new(child.locals.len(), |i: int| Seq::<usize>::empty()),
        edits,
        net,
    };
    lemma_bindings_allocate(m, alloc, child, inst.name, inst.inputs, WireKind::Input, 0, start);
    let inputs = bind_from(m, alloc, child, inst.name, inst.inputs, WireKind::Input, 0, start)->Ok_0;
    lemma_bindings_allocate(m, alloc, child, inst.name, inst.outputs, WireKind::Output, 0, inputs);
}

/// The number of bits of the private wires among the first `n` wires.
pub open spec fn private_width(locals: Seq<WireView>, n: nat) -> nat
    decreases n,
{
    if n == 0 {
        0
    } else {
        private_width(locals, (n - 1) as nat) + (if locals[n - 1].kind == WireKind::Private {
            locals[n - 1].width
        } else {
            0nat
        })
    }
}

/// Placing the private wires among the first `n` wires adds their bits to
/// the netlist, and no gate; each gets as many bits as it is wide, and the
/// other wires stay where they are.
pub proof fn lemma_privates_allocate(
    locals: Seq<WireView>,
    alloc: Seq<Seq<usize>>,
    net: NetView,
    n: nat,
)
    requires
        n <= locals.len(),
        alloc.len() == locals.len(),
    ensures
        allocate_privates(locals, alloc, net, n).0.len() == locals.len(),
        allocate_privates(locals, alloc, net, n).1.gates == net.gates,
        allocate_privates(locals, alloc, net, n).1.wires.len() == net.wires.len() + private_width(
            locals,
            n,
        ),
        forall|i: int|
            0 <= i < n && locals[i].kind == WireKind::Private ==> (#[trigger] allocate_privates(
                locals,
                alloc,
                net,
                n,
            ).0[i]).len() == locals[i].width,
        forall|i: int|
            0 <= i < locals.len() && (n <= i || locals[i].kind != WireKind::Private)
                ==> #[trigger] allocate_privates(locals, alloc, net, n).0[i] == alloc[i],
    decreases n,
{
    if n > 0 {
        lemma_privates_allocate(locals, alloc, net, (n - 1) as nat);
    }
}

/// Where each private wire of the tree has as many bits as it is wide, the
/// bits of the private wires are their widths.
pub proof fn lemma_owned_is_width(g: GraphModuleView, m: ModuleView, n: nat)
    requires
        n <= m.locals.len(),
        forall|i: int|
            0 <= i < n && m.locals[i].kind == WireKind::Private ==> (#[trigger] g.locals[i]).values.len()
                == m.locals[i].width,
    ensures
        owned_bits(g, m, n) == private_width(m.locals, n),
    decreases n,
{
    if n > 0 {
        lemma_owned_is_width(g, m, (n - 1) as nat);
        if m.locals[n - 1].kind == WireKind::Private {
            assert(g.locals[n - 1].values.len() == m.locals[n - 1].width);
        }
    }
}

/// Linking the instances of `m` from index `i` on adds to the netlist what
/// `children_bits` counts for them.
pub proof fn lemma_instances_allocate(
    m: ModuleView,
    alloc: Seq<Seq<usize>>,
    modules: Map<Seq<char>, Module>,
    descent: Seq<Seq<char>>,
    i: int,
    st: LinkState,
)
    requires
        modules_by_name(modules),
        0 <= i <= m.instances.len(),
        st.graphs.len() == i,
        link_instances_from(m, alloc, modules, descent, i, st) is Ok,
    ensures
        link_instances_from(m, alloc, modules, descent, i, st)->Ok_0.graphs.len()
            == m.instances.len(),
        forall|j: int|
            0 <= j < i ==> link_instances_from(m, alloc, modules, descent, i, st)->Ok_0.graphs[j]
                == st.graphs[j],
        link_instances_from(m, alloc, modules, descent, i, st)->Ok_0.net.wires.len()
            + children_bits(
            link_instances_from(m, alloc, modules, descent, i, st)->Ok_0.graphs,
            m,
            modules,
            i as nat,
        ) == st.net.wires.len() + children_bits(
            link_instances_from(m, alloc, modules, descent, i, st)->Ok_0.graphs,
            m,
            modules,
            m.instances.len(),
        ),
    decreases free_modules(modules, descent.push(m.name)).len(), 1nat, m.instances.len() - i,
{
    if i < m.instances.len() {
        let done = link_instances_from(m, alloc, modules, descent, i, st)->Ok_0;
        let inst = m.instances[i];
        let one = link_instance(m, alloc, modules, descent, inst, st.edits, st.net)->Ok_0;
        let next = LinkState { edits: one.edits, net: one.net, graphs: st.graphs.push(one.graph) };
        lemma_instance_links(m, alloc, modules, descent, inst, st.edits, st.net);
        lemma_instances_allocate(m, alloc, modules, descent, i + 1, next);
        assert(done.graphs[i] == next.graphs[i]);
        assert forall|j: int| 0 <= j < i implies done.graphs[j] == st.graphs[j] by {
            assert(done.graphs[j] == next.graphs[j]);
        }
    }
}

/// Linking one instance adds to the netlist the constants of its bindings
/// and what the elaboration of its module allocates.
pub proof fn lemma_instance_links(
    m: ModuleView,
    alloc: Seq<Seq<usize>>,
    modules: Map<Seq<char>, Module>,
    descent: Seq<Seq<char>>,
    inst: InstanceView,
    edits: Seq<Seq<usize>>,
    net: NetView,
)
    requires
        modules_by_name(modules),
        link_instance(m, alloc, modules, descent, inst, edits, net) is Ok,
    ensures
        link_instance(m, alloc, modules, descent, inst, edits, net)->Ok_0.net.wires.len()
            == net.wires.len() + instance_constants(inst) + tree_bits(
            link_instance(m, alloc, modules, descent, inst, edits, net)->Ok_0.graph,
            modules[inst.module]@,
            modules,
        ),
    decreases free_modules(modules, descent.push(m.name)).len(), 0nat, 0nat,
{
    let child = modules[inst.module]@;
    let bound = bind_instance(m, alloc, child, inst, edits, net)->Ok_0;
    lemma_instance_allocates(m, alloc, child, inst, edits, net);
    lemma_free_modules_push(modules, descent.push(m.name), child.name);
    let linked = link_module(child, bound.ports, modules, descent.push(m.name), bound.net)->Ok_0;
    lemma_module_allocates(child, bound.ports, modules, descent.push(m.name), bound.net);
    lemma_tree_bits_name(linked.graph, inst.name, child, modules);
}

/// Allocation totality: a successful link of module `m` adds to the netlist
/// exactly the bits that `tree_bits` counts in the elaborated tree: the bits
/// of the private wires of every elaborated module, and the bits of the
/// constants in port bindings.
pub proof fn lemma_module_allocates(
    m: ModuleView,
    alloc: Seq<Seq<usize>>,
    modules: Map<Seq<char>, Module>,
    descent: Seq<Seq<char>>,
    net: NetView,
)
    requires
        modules_by_name(modules),
        alloc.len() == m.locals.len(),
        link_module(m, alloc, modules, descent, net) is Ok,
    ensures
        link_module(m, alloc, modules, descent, net)->Ok_0.net.wires.len() == net.wires.len()
            + tree_bits(link_module(m, alloc, modules, descent, net)->Ok_0.graph, m, modules),
    decreases free_modules(modules, descent.push(m.name)).len(), 2nat, 0nat,
{
    let linked = link_module(m, alloc, modules, descent, net)->Ok_0;
    if m.name != nor_name() {
        let (placed, grown) = allocate_privates(m.locals, alloc, net, m.locals.len());
        let start = LinkState { edits: initial_edits(m.locals), net: grown, graphs: Seq::empty() };
        let done = link_instances_from(m, placed, modules, descent, 0, start)->Ok_0;
        lemma_privates_allocate(m.locals, alloc, net, m.locals.len());
        lemma_instances_allocate(m, placed, modules, descent, 0, start);
        lemma_owned_is_width(linked.graph, m, m.locals.len());
    }
}

} // verus!
