//! What the event queue guarantees: each event computes a NOR, a stable
//! netlist with one driver per wire is at a fixed point, and a netlist whose
//! gates stand before their readers settles in one pass.

use vstd::prelude::*;
use crate::net::{
    all_gates, enqueue_all, initial, lemma_readers_bound, lemma_step_wf, nor, readers, run, step,
    GateView, NetView, SimView,
};

verus! {

/// An event writes the NOR of the two inputs of the first gate of the queue
/// to the output of that gate.
pub proof fn lemma_event_computes_nor(s: SimView)
    requires
        s.wf(),
        s.queue.len() > 0,
    ensures
        step(s).wires[s.gates[s.queue[0] as int].out as int] == nor(
            s.wires[s.gates[s.queue[0] as int].in1 as int],
            s.wires[s.gates[s.queue[0] as int].in2 as int],
        ),
        step(s).wires.len() == s.wires.len(),
        step(s).gates == s.gates,
{
    assert(s.queue[0] < s.gates.len());
}

/// No two gates drive the same wire.
pub open spec fn single_drivers(gates: Seq<GateView>) -> bool {
    forall|i: int, j: int|
        0 <= i < gates.len() && 0 <= j < gates.len() && i != j ==> (#[trigger] gates[i]).out != (
        #[trigger] gates[j]).out
}

/// The output of gate `g` is the NOR of its inputs.
pub open spec fn gate_settled(s: SimView, g: int) -> bool {
    s.wires[s.gates[g].out as int] == nor(
        s.wires[s.gates[g].in1 as int],
        s.wires[s.gates[g].in2 as int],
    )
}

/// Every gate that is not waiting in the queue has the NOR of its inputs at
/// its output.
pub open spec fn consistent(s: SimView) -> bool {
    forall|g: int|
        0 <= g < s.gates.len() && !s.queue.contains(g as usize) ==> #[trigger] gate_settled(s, g)
}

/// The gates that read a wire are exactly those that have it as an input.
pub proof fn lemma_readers_members(gates: Seq<GateView>, w: nat, g: usize)
    requires
        gates.len() <= usize::MAX,
    ensures
        readers(gates, w).contains(g) <==> g < gates.len() && (gates[g as int].in1 == w
            || gates[g as int].in2 == w),
    decreases gates.len(),
{
    if gates.len() > 0 {
        let front = gates.drop_last();
        let before = readers(front, w);
        let last = (gates.len() - 1) as usize;
        lemma_readers_members(front, w, g);
        lemma_readers_bound(front, w);
        if g < front.len() {
            assert(front[g as int] == gates[g as int]);
        }
        if gates.last().in1 == w || gates.last().in2 == w {
            let all = before.push(last);
            if before.contains(g) {
                let k = choose|k: int| 0 <= k < before.len() && before[k] == g;
                assert(all[k] == g);
            }
            if g == last {
                assert(all[before.len() as int] == g);
            }
            if all.contains(g) {
                let k = choose|k: int| 0 <= k < all.len() && all[k] == g;
                if k < before.len() {
                    assert(before[k] == g);
                }
            }
        }
    }
}

/// What `enqueue_all` holds: what the queue held, and the gates that joined.
pub proof fn lemma_enqueue_members(queue: Seq<usize>, gates: Seq<usize>, g: usize)
    ensures
        enqueue_all(queue, gates).contains(g) <==> queue.contains(g) || gates.contains(g),
    decreases gates.len(),
{
    if gates.len() > 0 {
        let rest = gates.drop_first();
        let next = if queue.contains(gates[0]) {
            queue
        } else {
            queue.push(gates[0])
        };
        lemma_enqueue_members(next, rest, g);
        if gates.contains(g) {
            let k = choose|k: int| 0 <= k < gates.len() && gates[k] == g;
            if k > 0 {
                assert(rest[k - 1] == g);
            } else if !queue.contains(g) {
                assert(next[queue.len() as int] == g);
            }
        }
        if queue.contains(g) {
            let k = choose|k: int| 0 <= k < queue.len() && queue[k] == g;
            assert(next[k] == g);
        }
        if rest.contains(g) {
            let k = choose|k: int| 0 <= k < rest.len() && rest[k] == g;
            assert(gates[k + 1] == g);
        }
        if next.contains(g) && !queue.contains(g) {
            let k = choose|k: int| 0 <= k < next.len() && next[k] == g;
            if k < queue.len() {
                assert(queue[k] == g);
            }
            assert(gates[0] == g);
        }
    }
}

/// Where no two gates drive the same wire, an event keeps every gate outside
/// the queue settled.
pub proof fn lemma_step_consistent(s: SimView)
    requires
        s.wf(),
        single_drivers(s.gates),
        consistent(s),
    ensures
        consistent(step(s)),
{
    if s.queue.len() > 0 {
        let first = s.queue[0];
        let gate = s.gates[first as int];
        let rest = s.queue.drop_first();
        let after = step(s);
        assert(first < s.gates.len());
        assert forall|g: int|
            0 <= g < after.gates.len() && !after.queue.contains(g as usize) implies #[trigger] gate_settled(
            after,
            g,
        ) by {
            let other = s.gates[g];
            lemma_enqueue_members(rest, readers(s.gates, gate.out), g as usize);
            lemma_readers_members(s.gates, gate.out, g as usize);
            if g == first {
                if after.wires != s.wires {
                    assert(other.in1 != gate.out && other.in2 != gate.out);
                }
            } else {
                assert(!s.queue.contains(g as usize)) by {
                    if s.queue.contains(g as usize) {
                        let k = choose|k: int| 0 <= k < s.queue.len() && s.queue[k] == g as usize;
                        assert(rest[k - 1] == g as usize);
                    }
                }
                assert(gate_settled(s, g));
                assert(other.out != gate.out);
                if after.wires != s.wires {
                    assert(other.in1 != gate.out && other.in2 != gate.out);
                }
            }
        }
    }
}

/// Where no two gates drive the same wire, running keeps every gate outside
/// the queue settled.
pub proof fn lemma_run_consistent(s: SimView, limit: nat)
    requires
        s.wf(),
        single_drivers(s.gates),
        consistent(s),
    ensures
        run(s, limit).wf(),
        run(s, limit).gates == s.gates,
        consistent(run(s, limit)),
    decreases limit,
{
    if limit > 0 && s.queue.len() > 0 {
        lemma_step_wf(s);
        lemma_step_consistent(s);
        lemma_run_consistent(step(s), (limit - 1) as nat);
    }
}

/// A simulation starts with every gate in the queue, so nothing is claimed
/// of any gate yet.
pub proof fn lemma_initial_consistent(net: NetView)
    requires
        net.wf(),
    ensures
        initial(net).wf(),
        consistent(initial(net)),
{
    let s = initial(net);
    assert forall|g: int| 0 <= g < s.gates.len() && !s.queue.contains(g as usize) implies #[trigger] gate_settled(
        s,
        g,
    ) by {
        assert(s.queue[g] == g as usize);
    }
}

/// In a netlist where no two gates drive the same wire, a simulation that
/// has run from its start until it is stable has reached a fixed point:
/// every gate has the NOR of its inputs at its output.
pub proof fn lemma_stable_is_fixed_point(net: NetView, limit: nat)
    requires
        net.wf(),
        single_drivers(net.gates),
        run(initial(net), limit).queue.len() == 0,
    ensures
        forall|g: int|
            0 <= g < net.gates.len() ==> #[trigger] gate_settled(run(initial(net), limit), g),
{
    lemma_initial_consistent(net);
    lemma_run_consistent(initial(net), limit);
}

/// Every gate stands before the gates that read its output.
pub open spec fn ordered(gates: Seq<GateView>) -> bool {
    forall|i: int, j: int|
        0 <= i < gates.len() && 0 <= j < gates.len() && ((#[trigger] gates[i]).out == (
        #[trigger] gates[j]).in1 || gates[i].out == gates[j].in2) ==> i < j
}

/// The gates `k`, `k + 1`, ... below `n`, in order.
pub open spec fn gates_from(n: nat, k: nat) -> Seq<usize> {
    Seq::new((n - k) as nat, |i: int| (k + i) as usize)
}

/// Gates that are all waiting already leave the queue as it is.
pub proof fn lemma_enqueue_known(queue: Seq<usize>, gates: Seq<usize>)
    requires
        forall|k: int| 0 <= k < gates.len() ==> queue.contains(#[trigger] gates[k]),
    ensures
        enqueue_all(queue, gates) == queue,
    decreases gates.len(),
{
    if gates.len() > 0 {
        let rest = gates.drop_first();
        assert(queue.contains(gates[0]));
        assert forall|k: int| 0 <= k < rest.len() implies queue.contains(#[trigger] rest[k]) by {
            assert(rest[k] == gates[k + 1]);
        }
        lemma_enqueue_known(queue, rest);
    }
}

/// One more event allowed is one more step taken.
pub proof fn lemma_run_next(s: SimView, limit: nat)
    ensures
        run(s, limit + 1) == step(run(s, limit)),
    decreases limit,
{
    if s.queue.len() == 0 {
        assert(run(s, limit) == s);
        assert(run(s, limit + 1) == s);
    } else if limit > 0 {
        lemma_run_next(step(s), (limit - 1) as nat);
    } else {
        assert(run(step(s), 0) == step(s));
    }
}

/// Once the queue is empty, more events change nothing.
pub proof fn lemma_run_stays(s: SimView, limit: nat, more: nat)
    requires
        run(s, limit).queue.len() == 0,
        limit <= more,
    ensures
        run(s, more) == run(s, limit),
    decreases more - limit,
{
    if limit < more {
        lemma_run_stays(s, limit, (more - 1) as nat);
        lemma_run_next(s, (more - 1) as nat);
    }
}

/// In a netlist whose gates stand before their readers, the first `k`
/// events of a simulation evaluate the gates `0..k` and queue nothing.
pub proof fn lemma_first_pass(net: NetView, k: nat)
    requires
        net.wf(),
        ordered(net.gates),
        k <= net.gates.len(),
    ensures
        run(initial(net), k).gates == net.gates,
        run(initial(net), k).wires.len() == net.wires.len(),
        run(initial(net), k).queue == gates_from(net.gates.len(), k),
    decreases k,
{
    let n = net.gates.len();
    if k == 0 {
        assert(all_gates(n) =~= gates_from(n, 0));
    } else {
        let j = (k - 1) as nat;
        lemma_first_pass(net, j);
        lemma_run_next(initial(net), j);
        let s = run(initial(net), j);
        let rest = s.queue.drop_first();
        assert(s.queue[0] == j as usize);
        assert(rest =~= gates_from(n, k));
        let gate = s.gates[j as int];
        let joining = readers(s.gates, gate.out);
        assert forall|i: int| 0 <= i < joining.len() implies rest.contains(#[trigger] joining[i]) by {
            let g = joining[i];
            lemma_readers_members(s.gates, gate.out, g);
            assert(j < g < n);
            assert(rest[g - k] == g);
        }
        lemma_enqueue_known(rest, joining);
    }
}

/// In a netlist whose gates stand before their readers, a simulation is
/// stable after one pass over the gates: as many events as there are gates
/// empty the queue, and it stays empty whatever further budget is given.
pub proof fn lemma_ordered_settles(net: NetView, limit: nat)
    requires
        net.wf(),
        ordered(net.gates),
        net.gates.len() <= limit,
    ensures
        run(initial(net), limit).queue.len() == 0,
        run(initial(net), limit) == run(initial(net), net.gates.len()),
{
    lemma_first_pass(net, net.gates.len());
    lemma_run_stays(initial(net), net.gates.len(), limit);
}

/// `level` shows that the netlist is combinational: every gate that reads
/// the output of another gate stands on a lower level than that gate, so no
/// gate reads its own output, directly or through other gates.
pub open spec fn combinational(gates: Seq<GateView>, level: Seq<nat>) -> bool {
    &&& level.len() == gates.len()
    &&& forall|g: int, r: int|
        0 <= g < gates.len() && 0 <= r < gates.len() && ((#[trigger] gates[r]).in1 == (
        #[trigger] gates[g]).out || gates[r].in2 == gates[g].out) ==> level[r] < level[g]
}

/// The number of events that gate `g` can cause: its own, and those of the
/// gates that read its output and stand on a lower level.
pub open spec fn weight(gates: Seq<GateView>, level: Seq<nat>, g: int) -> nat
    decreases
            (if 0 <= g < gates.len() && g < level.len() {
                level[g] + 1
            } else {
                0
            }),
            0nat,
{
    if 0 <= g < gates.len() && g < level.len() {
        1 + lower_weight(gates, level, readers(gates, gates[g].out), level[g])
    } else {
        0
    }
}

/// The weights of those of the gates `rs` that stand below the level
/// `below`, added up.
pub open spec fn lower_weight(gates: Seq<GateView>, level: Seq<nat>, rs: Seq<usize>, below: nat) -> nat
    decreases below, rs.len(),
{
    if rs.len() == 0 {
        0
    } else {
        let r = rs.last() as int;
        lower_weight(gates, level, rs.drop_last(), below) + (if 0 <= r < gates.len() && r
            < level.len() && level[r] < below {
            weight(gates, level, r)
        } else {
            0
        })
    }
}

/// The weights of the gates `q`, added up.
pub open spec fn total_weight(gates: Seq<GateView>, level: Seq<nat>, q: Seq<usize>) -> nat
    decreases q.len(),
{
    if q.len() == 0 {
        0
    } else {
        total_weight(gates, level, q.drop_last()) + weight(gates, level, q.last() as int)
    }
}

/// The weight of a sequence of gates is the weight of its first gate and
/// that of the rest.
pub proof fn lemma_weight_first(gates: Seq<GateView>, level: Seq<nat>, q: Seq<usize>)
    requires
        q.len() > 0,
    ensures
        total_weight(gates, level, q) == weight(gates, level, q[0] as int) + total_weight(
            gates,
            level,
            q.drop_first(),
        ),
    decreases q.len(),
{
    if q.len() == 1 {
        assert(q.drop_last() =~= q.drop_first());
        assert(total_weight(gates, level, q.drop_first()) == 0);
    } else {
        let front = q.drop_last();
        lemma_weight_first(gates, level, front);
        assert(front.drop_first() =~= q.drop_first().drop_last());
        assert(q.drop_first().last() == q.last());
        assert(front[0] == q[0]);
    }
}

/// Gates that join a queue add at most their weights.
pub proof fn lemma_weight_joined(
    gates: Seq<GateView>,
    level: Seq<nat>,
    queue: Seq<usize>,
    joining: Seq<usize>,
)
    ensures
        total_weight(gates, level, enqueue_all(queue, joining)) <= total_weight(
            gates,
            level,
            queue,
        ) + total_weight(gates, level, joining),
    decreases joining.len(),
{
    if joining.len() > 0 {
        let rest = joining.drop_first();
        lemma_weight_first(gates, level, joining);
        if queue.contains(joining[0]) {
            lemma_weight_joined(gates, level, queue, rest);
        } else {
            let next = queue.push(joining[0]);
            assert(next.drop_last() =~= queue);
            lemma_weight_joined(gates, level, next, rest);
        }
    }
}

/// In a combinational netlist the readers of a gate's output all stand
/// below it, so a gate weighs one more than its readers do together.
pub proof fn lemma_weight_of_readers(
    gates: Seq<GateView>,
    level: Seq<nat>,
    g: int,
    rs: Seq<usize>,
)
    requires
        combinational(gates, level),
        gates.len() <= usize::MAX,
        0 <= g < gates.len(),
        forall|k: int| 0 <= k < rs.len() ==> readers(gates, gates[g].out).contains(#[trigger] rs[k]),
    ensures
        lower_weight(gates, level, rs, level[g]) == total_weight(gates, level, rs),
    decreases rs.len(),
{
    if rs.len() > 0 {
        let front = rs.drop_last();
        assert forall|k: int| 0 <= k < front.len() implies readers(gates, gates[g].out).contains(
            #[trigger] front[k],
        ) by {
            assert(front[k] == rs[k]);
        }
        lemma_weight_of_readers(gates, level, g, front);
        let r = rs.last();
        assert(rs[rs.len() - 1] == r);
        lemma_readers_members(gates, gates[g].out, r);
        assert(gates[r as int].in1 == gates[g].out || gates[r as int].in2 == gates[g].out);
    }
}

/// In a combinational netlist every event lowers the weight of the queue.
pub proof fn lemma_event_lowers_weight(s: SimView, level: Seq<nat>)
    requires
        s.wf(),
        combinational(s.gates, level),
        s.queue.len() > 0,
    ensures
        total_weight(s.gates, level, step(s).queue) < total_weight(s.gates, level, s.queue),
{
    let first = s.queue[0];
    let gate = s.gates[first as int];
    let rest = s.queue.drop_first();
    let joining = readers(s.gates, gate.out);
    assert(first < s.gates.len());
    lemma_weight_first(s.gates, level, s.queue);
    lemma_weight_joined(s.gates, level, rest, joining);
    assert forall|k: int| 0 <= k < joining.len() implies joining.contains(#[trigger] joining[k]) by {}
    lemma_weight_of_readers(s.gates, level, first as int, joining);
}

/// Convergence of combinational netlists: from any state, a simulation with
/// a budget of at least the weight of its queue runs until the queue is
/// empty; and it stays stable under any larger budget.
pub proof fn lemma_combinational_settles(s: SimView, level: Seq<nat>, limit: nat)
    requires
        s.wf(),
        combinational(s.gates, level),
        total_weight(s.gates, level, s.queue) <= limit,
    ensures
        run(s, limit).queue.len() == 0,
    decreases limit,
{
    if s.queue.len() > 0 {
        lemma_event_lowers_weight(s, level);
        lemma_step_wf(s);
        lemma_combinational_settles(step(s), level, (limit - 1) as nat);
    }
}

} // verus!
