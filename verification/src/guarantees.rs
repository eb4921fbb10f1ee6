//! What a design that was built guarantees: the netlist holds exactly the
//! bits that the elaborated tree accounts for, and no wire has two drivers.

use vstd::prelude::*;
use crate::assemble::{
    buildable, elaborate, lemma_table_of, root_net, root_places, table_of, top_name,
};
use crate::convergence::single_drivers;
use crate::drivers::{
    all_well_bound, driven_by, gate_at_output, lemma_module_drives, module_drives,
    outputs_distinct, tree_driven, valid_pos, well_bound, wired,
};
use crate::elaboration::{lemma_module_allocates, tree_bits};
use crate::link::{modules_by_name, nor_declared, nor_name, ports_placed};
use crate::parsed::{Module, WireKind, WireView};

verus! {

/// The places of the root module's ports: one entry for each wire, each port
/// as wide as declared, all bits below the number of bits used, and no two
/// port bits at the same place.
pub proof fn lemma_root_places(locals: Seq<WireView>, n: nat)
    requires
        n <= locals.len(),
        root_places(locals, n, 0).1 <= usize::MAX,
    ensures
        root_places(locals, n, 0).0.len() == n,
        forall|i: int|
            0 <= i < n && locals[i].kind != WireKind::Private ==> (#[trigger] root_places(
                locals,
                n,
                0,
            ).0[i]).len() == locals[i].width,
        forall|i: int, b: int|
            0 <= i < n && locals[i].kind != WireKind::Private && 0 <= b < locals[i].width ==> (
            #[trigger] root_places(locals, n, 0).0[i][b]) < root_places(locals, n, 0).1,
        forall|i: int, b: int, j: int, d: int|
            0 <= i < n && 0 <= j < n && locals[i].kind != WireKind::Private && locals[j].kind
                != WireKind::Private && 0 <= b < locals[i].width && 0 <= d < locals[j].width && (i
                != j || b != d) ==> #[trigger] root_places(locals, n, 0).0[i][b]
                != #[trigger] root_places(locals, n, 0).0[j][d],
    decreases n,
{
    if n > 0 {
        let k = (n - 1) as nat;
        let (before, used) = root_places(locals, k, 0);
        let (after, total) = root_places(locals, n, 0);
        lemma_root_places(locals, k);
        if locals[k as int].kind != WireKind::Private {
            let row = Seq::new(locals[k as int].width, |b: int| (used + b) as usize);
            assert(after == before.push(row));
            assert forall|i: int, b: int|
                0 <= i < n && locals[i].kind != WireKind::Private && 0 <= b < locals[i].width implies (
            #[trigger] after[i][b]) < total by {
                if i < k {
                    assert(after[i] == before[i]);
                    assert(before[i][b] < used);
                } else {
                    assert(after[i][b] == row[b]);
                }
            }
            assert forall|i: int, b: int, j: int, d: int|
                0 <= i < n && 0 <= j < n && locals[i].kind != WireKind::Private && locals[j].kind
                    != WireKind::Private && 0 <= b < locals[i].width && 0 <= d < locals[j].width
                    && (i != j || b != d) implies #[trigger] after[i][b] != #[trigger] after[j][d] by {
                if i < k {
                    assert(after[i] == before[i]);
                    assert(before[i][b] < used);
                } else {
                    assert(after[i][b] == row[b]);
                }
                if j < k {
                    assert(after[j] == before[j]);
                    assert(before[j][d] < used);
                } else {
                    assert(after[j][d] == row[d]);
                }
            }
        } else {
            assert(after == before.push(Seq::empty()));
            assert forall|i: int| 0 <= i < n && locals[i].kind != WireKind::Private implies (
            #[trigger] after[i]).len() == locals[i].width by {
                assert(after[i] == before[i]);
            }
            assert forall|i: int, b: int|
                0 <= i < n && locals[i].kind != WireKind::Private && 0 <= b < locals[i].width implies (
            #[trigger] after[i][b]) < total by {
                assert(after[i] == before[i]);
            }
            assert forall|i: int, b: int, j: int, d: int|
                0 <= i < n && 0 <= j < n && locals[i].kind != WireKind::Private && locals[j].kind
                    != WireKind::Private && 0 <= b < locals[i].width && 0 <= d < locals[j].width
                    && (i != j || b != d) implies #[trigger] after[i][b] != #[trigger] after[j][d] by {
                assert(after[i] == before[i]);
                assert(after[j] == before[j]);
            }
        }
    }
}

/// What `buildable` says of the table of the modules.
pub proof fn lemma_buildable_table(mods: Seq<Module>)
    requires
        buildable(mods),
    ensures
        modules_by_name(table_of(mods, mods.len())),
        nor_declared(table_of(mods, mods.len())),
        table_of(mods, mods.len()).contains_key(top_name()),
        table_of(mods, mods.len())[top_name()]@.name == top_name(),
        top_name() != nor_name(),
{
    let table = table_of(mods, mods.len());
    lemma_table_of(mods, mods.len());
    assert forall|k: Seq<char>| #[trigger] table.contains_key(k) implies table[k].name@ == k by {
        let i = choose|i: int| 0 <= i < mods.len() && mods[i].name@ == k;
        assert(table[mods[i].name@] == mods[i]);
    }
    if table.contains_key(nor_name()) {
        let i = choose|i: int| 0 <= i < mods.len() && mods[i].name@ == nor_name();
        assert(table[mods[i].name@] == mods[i]);
    }
    let i = choose|i: int| 0 <= i < mods.len() && mods[i].name@ == top_name();
    assert(table[mods[i].name@] == mods[i]);
    reveal_strlit("Top");
    reveal_strlit("Nor");
    assert("Top"@[0] == 'T' && "Nor"@[0] == 'N');
}

/// Allocation totality for a design: the netlist that elaboration yields has
/// one bit for each bit of a port of the root module, and beyond those
/// exactly the bits that the elaborated tree accounts for: the bits of the
/// private wires of every elaborated module and the bits of the constants in
/// port bindings.
pub proof fn lemma_elaborate_allocates(mods: Seq<Module>)
    requires
        buildable(mods),
        elaborate(mods) is Ok,
    ensures
        elaborate(mods)->Ok_0.net.wires.len() == root_net(
            table_of(mods, mods.len())[top_name()]@,
        ).wires.len() + tree_bits(
            elaborate(mods)->Ok_0.graph,
            table_of(mods, mods.len())[top_name()]@,
            table_of(mods, mods.len()),
        ),
{
    let table = table_of(mods, mods.len());
    let top = table[top_name()]@;
    lemma_buildable_table(mods);
    lemma_places_len(top.locals, top.locals.len());
    lemma_module_allocates(
        top,
        root_places(top.locals, top.locals.len(), 0).0,
        table,
        Seq::empty(),
        root_net(top),
    );
}

/// There is a place entry for each of the first `n` wires.
pub proof fn lemma_places_len(locals: Seq<WireView>, n: nat)
    ensures
        root_places(locals, n, 0).0.len() == n,
    decreases n,
{
    if n > 0 {
        lemma_places_len(locals, (n - 1) as nat);
    }
}

/// Driver uniqueness for a design in which no instance binds an output port
/// twice, and whose netlist fits the machine word: no two gates of the
/// elaborated netlist drive the same wire; every bit of an output of the
/// root module and every bit of a private wire in the elaborated tree has a
/// gate that drives it; and no gate drives a bit of an input of the root
/// module.
pub proof fn lemma_elaborate_drivers(mods: Seq<Module>)
    requires
        buildable(mods),
        all_well_bound(table_of(mods, mods.len())),
        elaborate(mods) is Ok,
        elaborate(mods)->Ok_0.net.wires.len() <= usize::MAX,
    ensures
        single_drivers(elaborate(mods)->Ok_0.net.gates),
        tree_driven(
            elaborate(mods)->Ok_0.graph,
            table_of(mods, mods.len())[top_name()]@,
            table_of(mods, mods.len()),
            elaborate(mods)->Ok_0.net.gates,
            0,
        ),
        forall|x: int, y: int|
            valid_pos(table_of(mods, mods.len())[top_name()]@.locals, x, y) && table_of(
                mods,
                mods.len(),
            )[top_name()]@.locals[x].kind == WireKind::Output ==> driven_by(
                elaborate(mods)->Ok_0.net.gates,
                0,
                #[trigger] elaborate(mods)->Ok_0.graph.locals[x].values[y],
            ),
        forall|x: int, y: int|
            valid_pos(table_of(mods, mods.len())[top_name()]@.locals, x, y) && table_of(
                mods,
                mods.len(),
            )[top_name()]@.locals[x].kind == WireKind::Input ==> !driven_by(
                elaborate(mods)->Ok_0.net.gates,
                0,
                #[trigger] elaborate(mods)->Ok_0.graph.locals[x].values[y],
            ),
{
    let table = table_of(mods, mods.len());
    let top = table[top_name()]@;
    let locals = top.locals;
    let places = root_places(locals, locals.len(), 0).0;
    let net = root_net(top);
    let linked = elaborate(mods)->Ok_0;
    lemma_buildable_table(mods);
    lemma_elaborate_allocates(mods);
    lemma_root_places(locals, locals.len());
    assert(well_bound(top));
    assert(ports_placed(locals, places, net.wires.len()));
    assert(outputs_distinct(locals, places));
    assert(wired(net));
    lemma_module_drives(top, places, table, Seq::empty(), net);
    assert(module_drives(top, places, table, net, linked));
    assert(net.gates.len() == 0);
    crate::elaboration::lemma_privates_allocate(locals, places, net, locals.len());
    let placed = crate::link::allocate_privates(locals, places, net, locals.len()).0;
    assert(linked.graph.locals == crate::link::graph_wires(locals, placed));
    assert forall|x: int, y: int|
        valid_pos(locals, x, y) && locals[x].kind != WireKind::Private implies #[trigger] linked.graph.locals[x].values[y]
        == places[x][y] by {
        assert(placed[x] == places[x]);
    }
    assert forall|x: int, y: int|
        valid_pos(locals, x, y) && locals[x].kind == WireKind::Output implies driven_by(
        linked.net.gates,
        0,
        #[trigger] linked.graph.locals[x].values[y],
    ) by {
        assert(driven_by(linked.net.gates, 0, places[x][y]));
    }
    assert forall|x: int, y: int|
        valid_pos(locals, x, y) && locals[x].kind == WireKind::Input implies !driven_by(
        linked.net.gates,
        0,
        #[trigger] linked.graph.locals[x].values[y],
    ) by {
        let bit = linked.graph.locals[x].values[y];
        assert(bit == places[x][y]);
        if driven_by(linked.net.gates, 0, bit) {
            let k = choose|k: int|
                0 <= k < linked.net.gates.len() && (#[trigger] linked.net.gates[k]).out == bit;
            assert(places[x][y] < net.wires.len());
            assert(gate_at_output(locals, places, linked.net.gates[k].out));
            let (u, v) = choose|u: int, v: int|
                valid_pos(locals, u, v) && locals[u].kind == WireKind::Output && #[trigger] places[u][v]
                    == linked.net.gates[k].out;
            assert(places[x][y] != places[u][v]);
        }
    }
}

} // verus!
