//! The flat netlist and the event-driven simulator that relaxes it.

use vstd::prelude::*;
use vstd::string::*;
use std::collections::VecDeque;
use crate::netgraph::WireDisplayer;
use crate::text::push_char;

verus! {

/// A NOR gate over three wire indices of a netlist.
#[derive(Debug)]
pub struct NorGate {
    in1: usize,
    in2: usize,
    out: usize,
}

/// The flat netlist: one bit per elaborated wire bit, and the gates over them.
#[derive(Debug)]
pub struct Net {
    wires: Vec<bool>,
    gates: Vec<NorGate>,
}

/// The simulator: a netlist, and the queue of gates that may be out of date.
#[derive(Debug)]
pub struct Simulation {
    net: Net,
    /// For each wire, the gates that read it.
    dependencies: Vec<Vec<usize>>,
    /// For each gate, whether it is waiting in the queue.
    dirty: Vec<bool>,
    /// Gates to evaluate, first in first out.
    process_queue: VecDeque<usize>,
}

pub ghost struct GateView {
    pub in1: nat,
    pub in2: nat,
    pub out: nat,
}

pub ghost struct NetView {
    pub wires: Seq<bool>,
    pub gates: Seq<GateView>,
}

pub ghost struct SimView {
    pub wires: Seq<bool>,
    pub gates: Seq<GateView>,
    pub queue: Seq<usize>,
}

impl NetView {
    /// Every gate reads and writes wires that exist.
    pub open spec fn wf(self) -> bool {
        &&& self.gates.len() <= usize::MAX
        &&& forall|g: int|
            0 <= g < self.gates.len() ==> {
                &&& (#[trigger] self.gates[g]).in1 < self.wires.len()
                &&& self.gates[g].in2 < self.wires.len()
                &&& self.gates[g].out < self.wires.len()
            }
    }
}

impl SimView {
    pub open spec fn net(self) -> NetView {
        NetView { wires: self.wires, gates: self.gates }
    }

    /// The gates are well formed, and the queue holds existing gates, each at
    /// most once.
    pub open spec fn wf(self) -> bool {
        &&& self.net().wf()
        &&& self.queue.no_duplicates()
        &&& forall|k: int| 0 <= k < self.queue.len() ==> (#[trigger] self.queue[k]) < self.gates.len()
    }
}

/// What a NOR gate computes.
pub open spec fn nor(a: bool, b: bool) -> bool {
    !(a || b)
}

/// The gates that read wire `w`, by increasing index.
pub open spec fn readers(gates: Seq<GateView>, w: nat) -> Seq<usize>
    decreases gates.len(),
{
    if gates.len() == 0 {
        Seq::empty()
    } else {
        let before = readers(gates.drop_last(), w);
        if gates.last().in1 == w || gates.last().in2 == w {
            before.push((gates.len() - 1) as usize)
        } else {
            before
        }
    }
}

/// `queue` after each gate of `gates` that it does not hold yet has joined
/// its back, in the order of `gates`.
pub open spec fn enqueue_all(queue: Seq<usize>, gates: Seq<usize>) -> Seq<usize>
    decreases gates.len(),
{
    if gates.len() == 0 {
        queue
    } else if queue.contains(gates[0]) {
        enqueue_all(queue, gates.drop_first())
    } else {
        enqueue_all(queue.push(gates[0]), gates.drop_first())
    }
}

/// The queue of a fresh simulation: every gate, by increasing index.
pub open spec fn all_gates(n: nat) -> Seq<usize> {
    Seq::new(n, |i: int| i as usize)
}

/// The state in which a simulation of `net` starts.
pub open spec fn initial(net: NetView) -> SimView {
    SimView { wires: net.wires, gates: net.gates, queue: all_gates(net.gates.len()) }
}

/// One event: the first gate of the queue leaves it and is evaluated;
/// if its output changes, the new value is written and the gates that read
/// that wire join the queue. With an empty queue nothing happens.
pub open spec fn step(s: SimView) -> SimView {
    if s.queue.len() == 0 {
        s
    } else {
        let gate = s.gates[s.queue[0] as int];
        let rest = s.queue.drop_first();
        let value = nor(s.wires[gate.in1 as int], s.wires[gate.in2 as int]);
        if value == s.wires[gate.out as int] {
            SimView { queue: rest, ..s }
        } else {
            SimView {
                wires: s.wires.update(gate.out as int, value),
                queue: enqueue_all(rest, readers(s.gates, gate.out)),
                ..s
            }
        }
    }
}

/// Writing `value` to wire `addr` from outside: the gates that read the wire
/// join the queue, whether or not the value changed.
pub open spec fn poke(s: SimView, addr: nat, value: bool) -> SimView {
    SimView {
        wires: s.wires.update(addr as int, value),
        queue: enqueue_all(s.queue, readers(s.gates, addr)),
        ..s
    }
}

/// The state after at most `limit` events, stopping early once the queue is
/// empty.
pub open spec fn run(s: SimView, limit: nat) -> SimView
    decreases limit,
{
    if limit == 0 || s.queue.len() == 0 {
        s
    } else {
        run(step(s), (limit - 1) as nat)
    }
}

/// Every reader of a wire is an existing gate.
pub proof fn lemma_readers_bound(gates: Seq<GateView>, w: nat)
    requires
        gates.len() <= usize::MAX,
    ensures
        forall|k: int| 0 <= k < readers(gates, w).len() ==> (#[trigger] readers(gates, w)[k]) < gates.len(),
    decreases gates.len(),
{
    if gates.len() > 0 {
        let before = readers(gates.drop_last(), w);
        lemma_readers_bound(gates.drop_last(), w);
        assert forall|k: int| 0 <= k < readers(gates, w).len() implies (#[trigger] readers(gates, w)[k])
            < gates.len() by {
            if k < before.len() {
                assert(readers(gates, w)[k] == before[k]);
            }
        }
    }
}

/// `enqueue_all` keeps a queue free of duplicates and within a bound, and
/// afterwards the queue holds what it held before and the gates that joined.
pub proof fn lemma_enqueue_all(queue: Seq<usize>, gates: Seq<usize>, bound: nat)
    requires
        queue.no_duplicates(),
        forall|k: int| 0 <= k < queue.len() ==> (#[trigger] queue[k]) < bound,
        forall|k: int| 0 <= k < gates.len() ==> (#[trigger] gates[k]) < bound,
    ensures
        enqueue_all(queue, gates).no_duplicates(),
        forall|k: int|
            0 <= k < enqueue_all(queue, gates).len() ==> (#[trigger] enqueue_all(queue, gates)[k])
                < bound,
        forall|g: usize|
            enqueue_all(queue, gates).contains(g) <==> queue.contains(g) || gates.contains(g),
    decreases gates.len(),
{
    if gates.len() > 0 {
        let rest = gates.drop_first();
        let next = if queue.contains(gates[0]) {
            queue
        } else {
            queue.push(gates[0])
        };
        assert forall|k: int| 0 <= k < rest.len() implies (#[trigger] rest[k]) < bound by {
            assert(rest[k] == gates[k + 1]);
        }
        lemma_enqueue_all(next, rest, bound);
        assert forall|g: usize|
            enqueue_all(queue, gates).contains(g) <==> queue.contains(g) || gates.contains(g) by {
            if gates.contains(g) {
                let k = choose|k: int| 0 <= k < gates.len() && gates[k] == g;
                if k > 0 {
                    assert(rest[k - 1] == g);
                } else {
                    assert(next.contains(g)) by {
                        if !queue.contains(g) {
                            assert(next[queue.len() as int] == g);
                        }
                    }
                }
            }
            if queue.contains(g) {
                let k = choose|k: int| 0 <= k < queue.len() && queue[k] == g;
                assert(next[k] == g);
            }
            if rest.contains(g) {
                let k = choose|k: int| 0 <= k < rest.len() && rest[k] == g;
                assert(gates[k + 1] == g);
            }
            if next.contains(g) && !queue.contains(g) {
                assert(gates[0] == g);
            }
        }
    }
}

/// An event keeps a well-formed state well formed.
pub proof fn lemma_step_wf(s: SimView)
    requires
        s.wf(),
    ensures
        step(s).wf(),
{
    if s.queue.len() > 0 {
        let gate = s.gates[s.queue[0] as int];
        let rest = s.queue.drop_first();
        assert forall|k: int| 0 <= k < rest.len() implies (#[trigger] rest[k]) < s.gates.len() by {
            assert(rest[k] == s.queue[k + 1]);
        }
        assert(rest.no_duplicates()) by {
            assert forall|i: int, j: int| 0 <= i < rest.len() && 0 <= j < rest.len() && i != j implies rest[i]
                != rest[j] by {
                assert(rest[i] == s.queue[i + 1]);
                assert(rest[j] == s.queue[j + 1]);
            }
        }
        lemma_readers_bound(s.gates, gate.out);
        lemma_enqueue_all(rest, readers(s.gates, gate.out), s.gates.len());
    }
}

/// The character that shows a bit.
pub open spec fn bit_char(bit: bool) -> char {
    if bit {
        '1'
    } else {
        '0'
    }
}

/// The rendering of a wire whose bits lie at `wire` in `wires`: `0b`, then
/// the bits from the highest index of the wire down to the lowest.
pub open spec fn bits_text(wires: Seq<bool>, wire: Seq<usize>) -> Seq<char> {
    "0b"@ + Seq::new(wire.len(), |k: int| bit_char(wires[wire[wire.len() - 1 - k] as int]))
}

/// Every index in `wire` is below `n`.
pub open spec fn all_below(wire: Seq<usize>, n: nat) -> bool {
    forall|k: int| 0 <= k < wire.len() ==> (#[trigger] wire[k]) < n
}

impl NorGate {
    pub closed spec fn view(&self) -> GateView {
        GateView { in1: self.in1 as nat, in2: self.in2 as nat, out: self.out as nat }
    }
}

impl View for Net {
    type V = NetView;

    closed spec fn view(&self) -> NetView {
        NetView {
            wires: self.wires@,
            gates: Seq::new(self.gates@.len(), |i: int| self.gates@[i].view()),
        }
    }
}

impl Net {
    /// An empty netlist.
    pub fn new() -> (r: Self)
        ensures
            r@.wires.len() == 0,
            r@.gates.len() == 0,
            r@.wf(),
    {
        Self { wires: Vec::new(), gates: Vec::new() }
    }

    /// Allocates `width` fresh wire bits, all zero, and returns the index of
    /// the first.
    pub fn allocate_wire(&mut self, width: usize) -> (begin: usize)
        ensures
            begin == old(self)@.wires.len(),
            begin + width <= usize::MAX,
            final(self)@.wires == old(self)@.wires + Seq::new(width as nat, |i: int| false),
            final(self)@.gates == old(self)@.gates,
            old(self)@.wf() ==> final(self)@.wf(),
    {
        let begin = self.wires.len();
        let mut fresh = vec![false; width];
        self.wires.append(&mut fresh);
        assert(self.wires.len() == self.wires@.len());
        assert(self@.wires =~= old(self)@.wires + Seq::new(width as nat, |i: int| false));
        assert(self@.gates =~= old(self)@.gates);
        begin
    }

    /// Adds a NOR gate that reads wires `in1` and `in2` and drives wire `out`.
    pub fn create_nor(&mut self, in1: usize, in2: usize, out: usize)
        requires
            in1 < old(self)@.wires.len(),
            in2 < old(self)@.wires.len(),
            out < old(self)@.wires.len(),
        ensures
            final(self)@.wires == old(self)@.wires,
            final(self)@.gates == old(self)@.gates.push(
                GateView { in1: in1 as nat, in2: in2 as nat, out: out as nat },
            ),
            old(self)@.wf() ==> final(self)@.wf(),
    {
        self.gates.push(NorGate { in1, in2, out });
        assert(self.gates.len() == self.gates@.len());
        assert(self@.gates =~= old(self)@.gates.push(
            GateView { in1: in1 as nat, in2: in2 as nat, out: out as nat },
        ));
    }

    /// Writes a wire bit directly; meant for constants while the netlist is
    /// being built.
    pub fn set_value(&mut self, idx: usize, val: bool)
        requires
            idx < old(self)@.wires.len(),
        ensures
            final(self)@.wires == old(self)@.wires.update(idx as int, val),
            final(self)@.gates == old(self)@.gates,
            old(self)@.wf() ==> final(self)@.wf(),
    {
        self.wires[idx] = val;
        assert(self@.gates =~= old(self)@.gates);
    }

    /// Number of wire bits.
    pub fn wire_count(&self) -> (n: usize)
        ensures
            n == self@.wires.len(),
    {
        self.wires.len()
    }

    /// Number of gates.
    pub fn gate_count(&self) -> (n: usize)
        ensures
            n == self@.gates.len(),
    {
        self.gates.len()
    }

    /// The value of wire bit `idx`.
    pub fn get_value(&self, idx: usize) -> (v: bool)
        requires
            idx < self@.wires.len(),
        ensures
            v == self@.wires[idx as int],
    {
        self.wires[idx]
    }

    /// The wires `(in1, in2, out)` of gate `idx`.
    pub fn gate(&self, idx: usize) -> (g: (usize, usize, usize))
        requires
            idx < self@.gates.len(),
        ensures
            self@.gates[idx as int] == (GateView { in1: g.0 as nat, in2: g.1 as nat, out: g.2 as nat }),
    {
        (self.gates[idx].in1, self.gates[idx].in2, self.gates[idx].out)
    }
}

impl View for Simulation {
    type V = SimView;

    closed spec fn view(&self) -> SimView {
        SimView { wires: self.net@.wires, gates: self.net@.gates, queue: self.process_queue@ }
    }
}

impl Simulation {
    /// The queue and the tables derived from the netlist agree with it: each
    /// wire's entry lists the gates that read it, and a gate is marked dirty
    /// exactly while it waits in the queue.
    pub closed spec fn wf(&self) -> bool {
        &&& self@.wf()
        &&& self.dependencies@.len() == self.net@.wires.len()
        &&& forall|w: int|
            0 <= w < self.dependencies@.len() ==> (#[trigger] self.dependencies@[w])@ == readers(
                self.net@.gates,
                w as nat,
            )
        &&& self.dirty@.len() == self.net@.gates.len()
        &&& forall|g: usize|
            g < self.dirty@.len() ==> (#[trigger] self.dirty@[g as int]) == self.process_queue@.contains(g)
    }

    /// Starts a simulation of `net`: every gate is queued, by increasing index.
    pub fn new(net: Net) -> (r: Self)
        requires
            net@.wf(),
        ensures
            r.wf(),
            r@.wf(),
            r@ == initial(net@),
    {
        let gate_count = net.gates.len();
        let wire_count = net.wires.len();
        let dirty = vec![true; gate_count];
        let mut process_queue: VecDeque<usize> = VecDeque::with_capacity(gate_count);
        let mut dependencies: Vec<Vec<usize>> = Vec::new();
        let mut w: usize = 0;
        while w < wire_count
            invariant
                w <= wire_count,
                dependencies@.len() == w,
                forall|k: int| 0 <= k < w ==> (#[trigger] dependencies@[k])@ == Seq::<usize>::empty(),
            decreases wire_count - w,
        {
            dependencies.push(Vec::new());
            w += 1;
        }
        let mut idx: usize = 0;
        while idx < gate_count
            invariant
                idx <= gate_count,
                gate_count == net.gates@.len(),
                wire_count == net.wires@.len(),
                net@.wf(),
                dependencies@.len() == wire_count,
                process_queue@ == all_gates(idx as nat),
                forall|k: int|
                    0 <= k < wire_count ==> (#[trigger] dependencies@[k])@ == readers(
                        net@.gates.take(idx as int),
                        k as nat,
                    ),
            decreases gate_count - idx,
        {
            let in1 = net.gates[idx].in1;
            let in2 = net.gates[idx].in2;
            proof {
                assert(net@.gates[idx as int] == net.gates@[idx as int].view());
                let next = net@.gates.take(idx + 1);
                assert(next.drop_last() == net@.gates.take(idx as int));
                assert(next.last() == net@.gates[idx as int]);
            }
            dependencies[in1].push(idx);
            if in2 != in1 {
                dependencies[in2].push(idx);
            }
            process_queue.push_back(idx);
            idx += 1;
            assert(process_queue@ =~= all_gates(idx as nat));
        }
        proof {
            assert(net@.gates.take(gate_count as int) == net@.gates);
            let queue = process_queue@;
            assert forall|g: usize| g < dirty@.len() implies (#[trigger] dirty@[g as int])
                == queue.contains(g) by {
                assert(queue[g as int] == g);
            }
        }
        Self { net, dependencies, dirty, process_queue }
    }

    /// Queues every gate that reads `wire` and is not waiting yet.
    fn enqueue_dependencies(&mut self, wire: usize)
        requires
            old(self).wf(),
            wire < old(self)@.wires.len(),
        ensures
            final(self).wf(),
            final(self)@.wires == old(self)@.wires,
            final(self)@.gates == old(self)@.gates,
            final(self)@.queue == enqueue_all(old(self)@.queue, readers(old(self)@.gates, wire as nat)),
    {
        let count = self.dependencies[wire].len();
        let ghost gates = readers(self@.gates, wire as nat);
        proof {
            lemma_readers_bound(self@.gates, wire as nat);
        }
        let mut k: usize = 0;
        assert(gates.skip(0) =~= gates);
        while k < count
            invariant
                k <= count,
                self.wf(),
                wire < self@.wires.len(),
                self@.wires == old(self)@.wires,
                self@.gates == old(self)@.gates,
                gates == readers(self@.gates, wire as nat),
                count == gates.len(),
                self.dependencies@[wire as int]@ == gates,
                forall|j: int| 0 <= j < gates.len() ==> (#[trigger] gates[j]) < self@.gates.len(),
                enqueue_all(self@.queue, gates.skip(k as int)) == enqueue_all(old(self)@.queue, gates),
            decreases count - k,
        {
            let gate = self.dependencies[wire][k];
            proof {
                let tail = gates.skip(k as int);
                assert(tail[0] == gate);
                assert(tail.drop_first() == gates.skip(k + 1));
                assert(gates[k as int] < self@.gates.len());
            }
            if !self.dirty[gate] {
                let ghost before = self.process_queue@;
                self.dirty[gate] = true;
                self.process_queue.push_back(gate);
                proof {
                    let after = self.process_queue@;
                    assert(after == before.push(gate));
                    assert(after.no_duplicates());
                    assert forall|g: usize| g < self.dirty@.len() implies (#[trigger] self.dirty@[g as int])
                        == after.contains(g) by {
                        if g == gate {
                            assert(after[before.len() as int] == gate);
                        } else if before.contains(g) {
                            let i = choose|i: int| 0 <= i < before.len() && before[i] == g;
                            assert(after[i] == g);
                        }
                    }
                }
            }
            k += 1;
        }
    }

    /// Takes the first gate of the queue, if there is one.
    fn dequeue(&mut self) -> (front: Option<usize>)
        requires
            old(self).wf(),
        ensures
            final(self).wf(),
            final(self)@.wires == old(self)@.wires,
            final(self)@.gates == old(self)@.gates,
            match front {
                Some(g) => {
                    &&& old(self)@.queue.len() > 0
                    &&& g == old(self)@.queue[0]
                    &&& g < old(self)@.gates.len()
                    &&& final(self)@.queue == old(self)@.queue.drop_first()
                },
                None => old(self)@.queue.len() == 0 && final(self)@.queue == old(self)@.queue,
            },
    {
        let ghost before = self.process_queue@;
        let front = self.process_queue.pop_front();
        if let Some(gate) = front {
            assert(before[0] == gate);
            self.dirty[gate] = false;
            proof {
                let after = self.process_queue@;
                assert(after =~= before.drop_first());
                assert forall|k: int| 0 <= k < after.len() implies (#[trigger] after[k])
                    < self@.gates.len() by {
                    assert(after[k] == before[k + 1]);
                }
                assert forall|i: int, j: int|
                    0 <= i < after.len() && 0 <= j < after.len() && i != j implies after[i]
                    != after[j] by {
                    assert(after[i] == before[i + 1]);
                    assert(after[j] == before[j + 1]);
                }
                assert forall|g: usize| g < self.dirty@.len() implies (#[trigger] self.dirty@[g as int])
                    == after.contains(g) by {
                    if after.contains(g) {
                        let i = choose|i: int| 0 <= i < after.len() && after[i] == g;
                        assert(before[i + 1] == g);
                    } else if before.contains(g) {
                        let i = choose|i: int| 0 <= i < before.len() && before[i] == g;
                        if i > 0 {
                            assert(after[i - 1] == g);
                        }
                    }
                }
            }
        }
        front
    }

    /// Processes one event.
    pub fn update(&mut self)
        requires
            old(self).wf(),
        ensures
            final(self).wf(),
            final(self)@.wf(),
            final(self)@ == step(old(self)@),
    {
        if let Some(idx) = self.dequeue() {
            assert(self.net@.gates[idx as int] == self.net.gates@[idx as int].view());
            let in1 = self.net.wires[self.net.gates[idx].in1];
            let in2 = self.net.wires[self.net.gates[idx].in2];
            let wire = self.net.gates[idx].out;
            let orig = self.net.wires[wire];
            let out = !(in1 || in2);
            if orig != out {
                let ghost gates = self.net@.gates;
                self.net.wires[wire] = out;
                assert(self.net@.gates =~= gates);
                self.enqueue_dependencies(wire);
            }
        }
    }

    /// Whether no gate is waiting.
    pub fn is_stable(&self) -> (r: bool)
        ensures
            r == (self@.queue.len() == 0),
    {
        self.process_queue.len() == 0
    }

    /// Writes wire bit `addr` from outside and queues the gates that read it.
    pub fn set_value(&mut self, addr: usize, value: bool)
        requires
            old(self).wf(),
            addr < old(self)@.wires.len(),
        ensures
            final(self).wf(),
            final(self)@.wf(),
            final(self)@ == poke(old(self)@, addr as nat, value),
    {
        let ghost gates = self.net@.gates;
        self.net.wires[addr] = value;
        assert(self.net@.gates =~= gates);
        self.enqueue_dependencies(addr);
    }

    /// The value of wire bit `addr`.
    pub fn get_value(&self, addr: usize) -> (v: bool)
        requires
            addr < self@.wires.len(),
        ensures
            v == self@.wires[addr as int],
    {
        self.net.wires[addr]
    }

    /// Number of wire bits.
    pub fn wire_count(&self) -> (n: usize)
        ensures
            n == self@.wires.len(),
    {
        self.net.wires.len()
    }

    /// Number of gates.
    pub fn gate_count(&self) -> (n: usize)
        ensures
            n == self@.gates.len(),
    {
        self.net.gates.len()
    }

    /// The wires `(in1, in2, out)` of gate `idx`.
    pub fn gate(&self, idx: usize) -> (g: (usize, usize, usize))
        requires
            idx < self@.gates.len(),
        ensures
            self@.gates[idx as int] == (GateView { in1: g.0 as nat, in2: g.1 as nat, out: g.2 as nat }),
    {
        self.net.gate(idx)
    }
}

impl WireDisplayer for Simulation {
    open spec fn can_display(&self, wire: Seq<usize>) -> bool {
        all_below(wire, self@.wires.len())
    }

    open spec fn wire_text(&self, wire: Seq<usize>) -> Seq<char> {
        bits_text(self@.wires, wire)
    }

    fn display_wire(&self, wire: &[usize]) -> (r: String) {
        let mut text = String::from_str("0b");
        let count = wire.len();
        let mut k: usize = 0;
        while k < count
            invariant
                k <= count,
                count == wire@.len(),
                all_below(wire@, self@.wires.len()),
                text@ == "0b"@ + Seq::new(
                    k as nat,
                    |j: int| bit_char(self@.wires[wire@[count - 1 - j] as int]),
                ),
            decreases count - k,
        {
            let ghost before = text@;
            let bit = self.get_value(wire[count - 1 - k]);
            push_char(&mut text, if bit { '1' } else { '0' });
            k += 1;
            assert(text@ =~= "0b"@ + Seq::new(
                k as nat,
                |j: int| bit_char(self@.wires[wire@[count - 1 - j] as int]),
            ));
        }
        text
    }
}

} // verus!
