//! From declared modules to a running simulation: the module table, the
//! placing of the root module's ports, linking, and the start of simulation.

use vstd::prelude::*;
use vstd::hash_map::StringHashMap;
use vstd::string::*;
use crate::link::{
    is_nor, link_module, modules_by_name, nor_declared, nor_name, ports_placed, Linked, Linker,
};
use crate::link_error::{LinkErrorView, LinkResult};
use crate::net::{initial, Net, NetView, Simulation};
use crate::netgraph::GraphModule;
use crate::parsed::{Module, ModuleView, WireKind, WireView};
use crate::convergence::single_drivers;
use crate::drivers::all_well_bound;
use crate::elaboration::tree_bits;
use crate::text::same_text;

verus! {

broadcast use crate::views::group_deep_view;

/// The name of the root module.
pub open spec fn top_name() -> Seq<char> {
    "Top"@
}

/// No two of the modules have the same name.
pub open spec fn distinct_names(mods: Seq<Module>) -> bool {
    forall|i: int, j: int| 0 <= i < j < mods.len() ==> mods[i].name@ != mods[j].name@
}

/// The first `n` modules, by name.
pub open spec fn table_of(mods: Seq<Module>, n: nat) -> Map<Seq<char>, Module>
    decreases n,
{
    if n == 0 {
        Map::empty()
    } else {
        table_of(mods, (n - 1) as nat).insert(mods[n - 1].name@, mods[n - 1])
    }
}

/// What `table_of` holds: exactly the first `n` modules, each under its name.
pub proof fn lemma_table_of(mods: Seq<Module>, n: nat)
    requires
        n <= mods.len(),
        distinct_names(mods),
    ensures
        table_of(mods, n).dom().finite(),
        forall|k: Seq<char>| #[trigger]
            table_of(mods, n).contains_key(k) <==> exists|i: int| 0 <= i < n && mods[i].name@ == k,
        forall|i: int| 0 <= i < n ==> table_of(mods, n)[(#[trigger] mods[i]).name@] == mods[i],
    decreases n,
{
    if n > 0 {
        lemma_table_of(mods, (n - 1) as nat);
        let before = table_of(mods, (n - 1) as nat);
        let last = mods[n - 1];
        assert forall|k: Seq<char>| #[trigger]
            table_of(mods, n).contains_key(k) <==> exists|i: int|
                0 <= i < n && mods[i].name@ == k by {
            if before.contains_key(k) {
                let i = choose|i: int| 0 <= i < n - 1 && mods[i].name@ == k;
                assert(0 <= i < n && mods[i].name@ == k);
            }
            if k == last.name@ {
                assert(0 <= n - 1 < n && mods[n - 1].name@ == k);
            }
        }
        assert forall|i: int| 0 <= i < n implies table_of(mods, n)[(#[trigger] mods[i]).name@]
            == mods[i] by {
            if i < n - 1 {
                assert(mods[i].name@ != last.name@);
            }
        }
    }
}

/// The bits at which the root module is placed before it is linked: the
/// ports among its first `n` wires get fresh zero bits in a netlist of
/// `start` wires, in order; private wires get none yet.
pub open spec fn root_places(locals: Seq<WireView>, n: nat, start: nat) -> (Seq<Seq<usize>>, nat)
    decreases n,
{
    if n == 0 {
        (Seq::empty(), start)
    } else {
        let (places, used) = root_places(locals, (n - 1) as nat, start);
        if locals[n - 1].kind == WireKind::Private {
            (places.push(Seq::empty()), used)
        } else {
            (
                places.push(Seq::new(locals[n - 1].width, |b: int| (used + b) as usize)),
                used + locals[n - 1].width,
            )
        }
    }
}

/// The netlist in which the root module starts: one zero bit for each bit of
/// its ports.
pub open spec fn root_net(top: ModuleView) -> NetView {
    NetView {
        wires: Seq::new(root_places(top.locals, top.locals.len(), 0).1, |i: int| false),
        gates: Seq::empty(),
    }
}

/// What `build` needs of the modules: their names differ, one of them is
/// the root module `Top`, and the module `Nor`, if there is one, is declared
/// as the primitive.
pub open spec fn buildable(mods: Seq<Module>) -> bool {
    &&& distinct_names(mods)
    &&& exists|i: int| 0 <= i < mods.len() && mods[i].name@ == top_name()
    &&& forall|i: int| 0 <= i < mods.len() && mods[i].name@ == nor_name() ==> is_nor(mods[i]@)
}

/// The root module among the modules.
pub open spec fn top_of(mods: Seq<Module>) -> ModuleView {
    table_of(mods, mods.len())[top_name()]@
}

/// The outcome of elaborating the modules from the root module `Top`.
pub open spec fn elaborate(mods: Seq<Module>) -> Result<Linked, LinkErrorView> {
    let table = table_of(mods, mods.len());
    let top = table[top_name()]@;
    link_module(
        top,
        root_places(top.locals, top.locals.len(), 0).0,
        table,
        Seq::empty(),
        root_net(top),
    )
}

/// Whether `build` can take these modules.
#[verifier::loop_isolation(false)]
pub fn can_build(mods: &Vec<Module>) -> (r: bool)
    ensures
        r == buildable(mods@),
{
    let mut found_top = false;
    let ghost mut top_at: int = 0;
    let mut i: usize = 0;
    while i < mods.len()
        invariant
            i <= mods.len(),
            forall|a: int, b: int| 0 <= a < b < i ==> mods@[a].name@ != mods@[b].name@,
            found_top ==> 0 <= top_at < i && mods@[top_at].name@ == top_name(),
            !found_top ==> forall|a: int| 0 <= a < i ==> mods@[a].name@ != top_name(),
            forall|a: int| 0 <= a < i && mods@[a].name@ == nor_name() ==> is_nor(mods@[a]@),
        decreases mods.len() - i,
    {
        let module = &mods[i];
        let mut k: usize = 0;
        while k < i
            invariant
                k <= i,
                forall|a: int| 0 <= a < k ==> mods@[a].name@ != mods@[i as int].name@,
            decreases i - k,
        {
            if mods[k].name == module.name {
                assert(!distinct_names(mods@));
                return false;
            }
            k += 1;
        }
        if same_text(module.name.as_str(), "Top") {
            found_top = true;
            proof {
                top_at = i as int;
            }
        }
        if same_text(module.name.as_str(), "Nor") {
            if !declares_nor(module) {
                return false;
            }
        }
        i += 1;
    }
    found_top
}

/// Whether `module` is declared as the primitive module.
fn declares_nor(module: &Module) -> (r: bool)
    requires
        module@.name == nor_name(),
    ensures
        r == is_nor(module@),
{
    if module.locals.len() != 3 || module.instances.len() != 0 {
        proof {
            if module.locals.len() != 3 {
                assert(module@.locals.len() != 3);
            }
        }
        return false;
    }
    let a = &module.locals[0];
    let b = &module.locals[1];
    let out = &module.locals[2];
    assert(module@.locals[0] == a@);
    assert(module@.locals[1] == b@);
    assert(module@.locals[2] == out@);
    let shaped = same_text(a.name.as_str(), "a") && a.width == 1 && a.kind == WireKind::Input
        && same_text(b.name.as_str(), "b") && b.width == 1 && b.kind == WireKind::Input
        && same_text(out.name.as_str(), "out") && out.width == 1 && out.kind == WireKind::Output;
    proof {
        let want = seq![
            WireView { name: "a"@, width: 1, kind: WireKind::Input },
            WireView { name: "b"@, width: 1, kind: WireKind::Input },
            WireView { name: "out"@, width: 1, kind: WireKind::Output },
        ];
        if shaped {
            assert(module@.locals =~= want);
        } else {
            if module@.locals == want {
                assert(want[0] == a@);
                assert(want[1] == b@);
                assert(want[2] == out@);
            }
        }
    }
    shaped
}

/// The table of the modules, by name.
#[verifier::loop_isolation(false)]
pub fn module_map(mods: Vec<Module>) -> (table: StringHashMap<Module>)
    ensures
        table@ == table_of(mods@, mods@.len()),
{
    let mut table: StringHashMap<Module> = StringHashMap::new();
    let ghost all = mods@;
    for module in it: mods
        invariant
            it.seq() == all,
            table@ == table_of(all, it.index() as nat),
    {
        let name = module.name.clone();
        table.insert(name, module);
    }
    table
}

/// Places the ports of the root module in an empty netlist.
#[verifier::loop_isolation(false)]
fn place_root(top: &Module, net: &mut Net) -> (places: Vec<Vec<usize>>)
    requires
        old(net)@.wires.len() == 0,
        old(net)@.gates.len() == 0,
    ensures
        places.deep_view() == root_places(top@.locals, top@.locals.len(), 0).0,
        final(net)@ == root_net(top@),
        final(net)@.wf(),
        ports_placed(top@.locals, places.deep_view(), final(net)@.wires.len()),
{
    let ghost locals = top@.locals;
    let mut places: Vec<Vec<usize>> = Vec::new();
    let mut i: usize = 0;
    assert(places.deep_view() =~= root_places(locals, 0, 0).0);
    assert(net@.wires =~= Seq::new(0nat, |k: int| false));
    assert(net@.gates =~= Seq::<crate::net::GateView>::empty());
    while i < top.locals.len()
        invariant
            i <= top.locals.len(),
            places@.len() == i,
            places.deep_view() == root_places(locals, i as nat, 0).0,
            net@.wires.len() == root_places(locals, i as nat, 0).1,
            net@.wires == Seq::new(net@.wires.len(), |k: int| false),
            net@.gates == Seq::<crate::net::GateView>::empty(),
            forall|w: int|
                0 <= w < i && locals[w].kind != WireKind::Private ==> (
                #[trigger] places.deep_view()[w]).len() == locals[w].width,
            forall|w: int, b: int|
                0 <= w < i && 0 <= b < places.deep_view()[w].len() ==> (
                #[trigger] places.deep_view()[w][b]) < net@.wires.len(),
        decreases top.locals.len() - i,
    {
        assert(locals[i as int] == top.locals@[i as int]@);
        let ghost before = places.deep_view();
        let ghost old_len = net@.wires.len();
        let row = if top.locals[i].kind == WireKind::Private {
            Vec::new()
        } else {
            let width = top.locals[i].width;
            let begin = net.allocate_wire(width);
            let mut bits: Vec<usize> = Vec::new();
            let mut b: usize = 0;
            while b < width
                invariant
                    b <= width,
                    begin + width <= usize::MAX,
                    bits@ == Seq::new(b as nat, |k: int| (begin + k) as usize),
                decreases width - b,
            {
                bits.push(begin + b);
                b += 1;
                assert(bits@ =~= Seq::new(b as nat, |k: int| (begin + k) as usize));
            }
            assert(net@.wires =~= Seq::new(net@.wires.len(), |k: int| false));
            bits
        };
        let ghost row_view = row@;
        places.push(row);
        proof {
            assert(places.deep_view() =~= before.push(row_view));
            let cur = places.deep_view();
            assert forall|w: int, b: int| 0 <= w < i + 1 && 0 <= b < cur[w].len() implies (
            #[trigger] cur[w][b]) < net@.wires.len() by {
                if w < i {
                    assert(cur[w] == before[w]);
                    assert(before[w][b] < old_len);
                }
            }
            assert forall|w: int|
                0 <= w < i + 1 && locals[w].kind != WireKind::Private implies (#[trigger] cur[w]).len()
                == locals[w].width by {
                if w < i {
                    assert(cur[w] == before[w]);
                }
            }
        }
        i += 1;
    }
    places
}

/// Elaborates the modules from the root module `Top` and starts a
/// simulation of the resulting netlist: the result holds the hierarchy tree
/// and the simulation, or the link error.
pub fn build(mods: Vec<Module>) -> (r: LinkResult<(GraphModule, Simulation)>)
    requires
        buildable(mods@),
    ensures
        match r {
            Ok((graph, sim)) => {
                &&& elaborate(mods@) matches Ok(linked)
                &&& linked.graph == graph@
                &&& sim@ == initial(linked.net)
                &&& sim.wf()
                &&& graph@.bounded(sim@.wires.len())
                &&& sim@.wires.len() == root_net(top_of(mods@)).wires.len() + tree_bits(
                    graph@,
                    top_of(mods@),
                    table_of(mods@, mods@.len()),
                )
                &&& all_well_bound(table_of(mods@, mods@.len())) ==> single_drivers(sim@.gates)
            },
            Err(e) => elaborate(mods@) == Err::<Linked, LinkErrorView>(e@),
        },
{
    let ghost all = mods@;
    proof {
        lemma_table_of(all, all.len());
    }
    let table = module_map(mods);
    proof {
        let i = choose|i: int| 0 <= i < all.len() && all[i].name@ == top_name();
        assert(table@.contains_key(all[i].name@));
    }
    let top = table.get("Top").unwrap();
    let mut net = Net::new();
    let mut wires = place_root(top, &mut net);
    let mut descent: Vec<String> = Vec::new();
    assert(descent.deep_view() =~= Seq::empty());
    proof {
        assert(modules_by_name(table@)) by {
            assert forall|k: Seq<char>| #[trigger] table@.contains_key(k) implies table@[k].name@
                == k by {
                let i = choose|i: int| 0 <= i < all.len() && all[i].name@ == k;
                assert(table@[all[i].name@] == all[i]);
            }
        }
        assert(nor_declared(table@)) by {
            if table@.contains_key(nor_name()) {
                let i = choose|i: int| 0 <= i < all.len() && all[i].name@ == nor_name();
                assert(table@[all[i].name@] == all[i]);
            }
        }
        let i = choose|i: int| 0 <= i < all.len() && all[i].name@ == top_name();
        assert(table@[all[i].name@] == all[i]);
        reveal_strlit("Top");
        reveal_strlit("Nor");
    }
    let graph = {
        let mut linker = match Linker::new(top, &mut wires, &table, &mut descent, &mut net) {
            Ok(linker) => linker,
            Err(e) => {
                return Err(e);
            },
        };
        match linker.link() {
            Ok(graph) => graph,
            Err(e) => {
                return Err(e);
            },
        }
    };
    let size = net.wire_count();
    proof {
        crate::guarantees::lemma_elaborate_allocates(all);
        if all_well_bound(table_of(all, all.len())) {
            crate::guarantees::lemma_elaborate_drivers(all);
        }
    }
    let sim = Simulation::new(net);
    Ok((graph, sim))
}

} // verus!
