//! Assignment lowering: rewrites the assignments `bus = operation;` of a
//! module into instances of gate modules and fresh private wires.

use vstd::prelude::*;
use vstd::string::*;
use crate::parsed::{
    bus_width, clone_bus, operation_width, part_width, width_of_bus, Connection, ConnectionView,
    Instance, InstanceView, Module, Operation, OperationView, Wire, WireAssignment,
    WireAssignmentView, WireKind, WirePart, WirePartView, WireRange, WireView,
};
use crate::text::{decimal, push_decimal};
use crate::views::lemma_deep_view_push;

verus! {

broadcast use crate::views::group_deep_view;

/// What lowering works on: the wires and instances of the module, and the
/// number of the next generated name.
pub ghost struct Lowering {
    pub locals: Seq<WireView>,
    pub instances: Seq<InstanceView>,
    pub counter: nat,
}

/// The generated name with the given number.
pub open spec fn gen_name(counter: nat) -> Seq<char> {
    "gen_"@ + decimal(counter)
}

/// The single bit `index` of a bus part, as a part of its own.
pub open spec fn bit_part(part: WirePartView, index: nat) -> WirePartView {
    match part {
        WirePartView::Constant(values) => WirePartView::Constant(seq![values[index as int]]),
        WirePartView::Local { name, range: WireRange::Total } => WirePartView::Local {
            name,
            range: WireRange::Ranged { from: index as usize, to: index as usize },
        },
        WirePartView::Local { name, range: WireRange::Ranged { from, to } } => WirePartView::Local {
            name,
            range: WireRange::Ranged { from: (from + index) as usize, to: (from + index) as usize },
        },
    }
}

/// Bit `index` of the bus made of the parts of `bus` from part `k` on.
///
/// There is none where a part up to the one that holds the bit has no width,
/// or where the bus has too few bits.
pub open spec fn bit_from(bus: Seq<WirePartView>, locals: Seq<WireView>, k: int, index: nat) -> Option<
    WirePartView,
>
    decreases bus.len() - k,
{
    if k < 0 || k >= bus.len() {
        None
    } else {
        match part_width(bus[k], locals) {
            None => None,
            Some(w) => if w > index {
                Some(bit_part(bus[k], index))
            } else {
                bit_from(bus, locals, k + 1, (index - w) as nat)
            },
        }
    }
}

/// Bit `index` of a bus.
pub open spec fn bit_of(bus: Seq<WirePartView>, locals: Seq<WireView>, index: nat) -> Option<
    WirePartView,
> {
    bit_from(bus, locals, 0, index)
}

/// Bits `lo..hi` of a bus, each as a part of its own.
pub open spec fn bits_between(bus: Seq<WirePartView>, locals: Seq<WireView>, lo: nat, hi: nat) -> Option<
    Seq<WirePartView>,
>
    decreases hi - lo,
{
    if lo >= hi {
        Some(Seq::empty())
    } else {
        match (bits_between(bus, locals, lo, (hi - 1) as nat), bit_of(bus, locals, (hi - 1) as nat)) {
            (Some(before), Some(bit)) => Some(before.push(bit)),
            _ => None,
        }
    }
}

/// The instance of a one-input gate.
pub open spec fn unary_gate(
    gate: Seq<char>,
    name: Seq<char>,
    input: WirePartView,
    output: WirePartView,
) -> InstanceView {
    InstanceView {
        module: gate,
        name,
        inputs: seq![ConnectionView { local: seq![input], module: "in"@ }],
        outputs: seq![ConnectionView { local: seq![output], module: "out"@ }],
    }
}

/// The instance of a two-input gate.
pub open spec fn binary_gate(
    gate: Seq<char>,
    name: Seq<char>,
    in1: WirePartView,
    in2: WirePartView,
    output: WirePartView,
) -> InstanceView {
    InstanceView {
        module: gate,
        name,
        inputs: seq![
            ConnectionView { local: seq![in1], module: "a"@ },
            ConnectionView { local: seq![in2], module: "b"@ },
        ],
        outputs: seq![ConnectionView { local: seq![output], module: "out"@ }],
    }
}

/// Appends one-input gates for bits `i..width`: gate `i` reads bit `i` of
/// `input` and drives bit `i` of `output`, under the next generated name.
pub open spec fn unary_from(
    st: Lowering,
    input: Seq<WirePartView>,
    output: Seq<WirePartView>,
    gate: Seq<char>,
    width: nat,
    i: nat,
) -> Option<Lowering>
    decreases width - i,
{
    if i >= width {
        Some(st)
    } else {
        match (bit_of(input, st.locals, i), bit_of(output, st.locals, i)) {
            (Some(a), Some(b)) => if st.counter < u64::MAX {
                unary_from(
                    Lowering {
                        instances: st.instances.push(unary_gate(gate, gen_name(st.counter), a, b)),
                        counter: st.counter + 1,
                        ..st
                    },
                    input,
                    output,
                    gate,
                    width,
                    i + 1,
                )
            } else {
                None
            },
            _ => None,
        }
    }
}

/// Appends one one-input gate for each bit of `input`.
pub open spec fn emit_unary(
    st: Lowering,
    input: Seq<WirePartView>,
    output: Seq<WirePartView>,
    gate: Seq<char>,
) -> Option<Lowering> {
    match bus_width(input, st.locals) {
        Some(width) => unary_from(st, input, output, gate, width, 0),
        None => None,
    }
}

/// Appends two-input gates for bits `i..width`.
pub open spec fn binary_from(
    st: Lowering,
    in1: Seq<WirePartView>,
    in2: Seq<WirePartView>,
    output: Seq<WirePartView>,
    gate: Seq<char>,
    width: nat,
    i: nat,
) -> Option<Lowering>
    decreases width - i,
{
    if i >= width {
        Some(st)
    } else {
        match (bit_of(in1, st.locals, i), bit_of(in2, st.locals, i), bit_of(output, st.locals, i)) {
            (Some(a), Some(b), Some(c)) => if st.counter < u64::MAX {
                binary_from(
                    Lowering {
                        instances: st.instances.push(
                            binary_gate(gate, gen_name(st.counter), a, b, c),
                        ),
                        counter: st.counter + 1,
                        ..st
                    },
                    in1,
                    in2,
                    output,
                    gate,
                    width,
                    i + 1,
                )
            } else {
                None
            },
            _ => None,
        }
    }
}

/// Appends one two-input gate for each bit of `in1`.
pub open spec fn emit_binary(
    st: Lowering,
    in1: Seq<WirePartView>,
    in2: Seq<WirePartView>,
    output: Seq<WirePartView>,
    gate: Seq<char>,
) -> Option<Lowering> {
    match bus_width(in1, st.locals) {
        Some(width) => binary_from(st, in1, in2, output, gate, width, 0),
        None => None,
    }
}

/// The bus that is the whole of a fresh wire of `width` bits.
pub open spec fn whole(name: Seq<char>, width: nat) -> Seq<WirePartView> {
    seq![
        WirePartView::Local {
            name,
            range: WireRange::Ranged { from: 0, to: (width - 1) as usize },
        },
    ]
}

/// Declares a fresh private wire of `width` bits under the next generated
/// name; the result holds the bus that is the whole of it.
pub open spec fn create_bus(st: Lowering, width: nat) -> Option<(Lowering, Seq<WirePartView>)> {
    if st.counter < u64::MAX && 1 <= width <= usize::MAX {
        let name = gen_name(st.counter);
        Some(
            (
                Lowering {
                    locals: st.locals.push(WireView { name, width, kind: WireKind::Private }),
                    counter: st.counter + 1,
                    ..st
                },
                whole(name, width),
            ),
        )
    } else {
        None
    }
}

/// The width of a bus, or 0 where it has none.
pub open spec fn width_or_zero(bus: Seq<WirePartView>, locals: Seq<WireView>) -> nat {
    match bus_width(bus, locals) {
        Some(w) => w,
        None => 0,
    }
}

/// A bus of single bits has as many bits as parts, whatever the wires are.
pub proof fn lemma_bits_between_width(
    bus: Seq<WirePartView>,
    locals: Seq<WireView>,
    lo: nat,
    hi: nat,
    others: Seq<WireView>,
)
    requires
        bits_between(bus, locals, lo, hi) is Some,
        hi - lo <= usize::MAX,
    ensures
        bits_between(bus, locals, lo, hi)->0.len() == (if lo <= hi {
            hi - lo
        } else {
            0
        }),
        bus_width(bits_between(bus, locals, lo, hi)->0, others) == Some(
            bits_between(bus, locals, lo, hi)->0.len(),
        ),
    decreases hi - lo,
{
    if lo < hi {
        lemma_bits_between_width(bus, locals, lo, (hi - 1) as nat, others);
        let before = bits_between(bus, locals, lo, (hi - 1) as nat)->0;
        let bit = bit_of(bus, locals, (hi - 1) as nat)->0;
        lemma_bit_from_single(bus, locals, 0, (hi - 1) as nat, others);
        let all = before.push(bit);
        assert(all.drop_last() == before);
        assert(all.last() == bit);
    }
}

/// A bit taken from a bus is a part of width 1, whatever the wires are.
pub proof fn lemma_bit_from_single(
    bus: Seq<WirePartView>,
    locals: Seq<WireView>,
    k: int,
    index: nat,
    others: Seq<WireView>,
)
    requires
        bit_from(bus, locals, k, index) is Some,
    ensures
        part_width(bit_from(bus, locals, k, index)->0, others) == Some(1nat),
    decreases bus.len() - k,
{
    if 0 <= k < bus.len() {
        match part_width(bus[k], locals) {
            None => {},
            Some(w) => {
                if w > index {
                } else {
                    lemma_bit_from_single(bus, locals, k + 1, (index - w) as nat, others);
                }
            },
        }
    }
}

/// Reduces one half of a bus: a half of one bit stands for itself; a wider
/// half is reduced into a fresh one-bit wire, which then stands for it.
///
/// `bound` is the width of the bus that the half was cut from. A half is
/// narrower than that bus, whatever wires are declared, so the comparison
/// with `bound` never fails for a half; it is there to show that the
/// reduction comes to an end.
pub open spec fn reduce_half(st: Lowering, half: Seq<WirePartView>, gate: Seq<char>, bound: nat) -> Option<
    (Lowering, Seq<WirePartView>),
>
    decreases bound, 0nat,
{
    match bus_width(half, st.locals) {
        None => None,
        Some(w) => if w == 1 {
            Some((st, half))
        } else {
            match create_bus(st, 1) {
                None => None,
                Some((made, wire)) => if width_or_zero(half, made.locals) < bound {
                    match reduce(made, half, wire, gate) {
                        Some(done) => Some((done, wire)),
                        None => None,
                    }
                } else {
                    None
                },
            }
        },
    }
}

/// Reduces the bus `input` of width `W` to bit 0 of `out` with the two-input
/// gate `gate`.
///
/// A bus of one bit is copied by a `Buffer`. A wider bus is cut into bits
/// `0..W/2` and `W/2..W`; each half is reduced, the lower first, and one
/// gate combines the two results. A bus without bits cannot be reduced.
pub open spec fn reduce(
    st: Lowering,
    input: Seq<WirePartView>,
    out: Seq<WirePartView>,
    gate: Seq<char>,
) -> Option<Lowering>
    decreases width_or_zero(input, st.locals), 1nat,
{
    match bus_width(input, st.locals) {
        None => None,
        Some(w) => if w == 0 {
            None
        } else if w == 1 {
            emit_unary(st, input, out, "Buffer"@)
        } else {
            match (
                bits_between(input, st.locals, 0, w / 2),
                bits_between(input, st.locals, w / 2, w),
            ) {
                (Some(low), Some(high)) => match reduce_half(st, low, gate, w) {
                    None => None,
                    Some((st1, r1)) => match reduce_half(st1, high, gate, w) {
                        None => None,
                        Some((st2, r2)) => emit_binary(st2, r1, r2, out, gate),
                    },
                },
                _ => None,
            }
        },
    }
}

/// Which module of gates stands for a binary operation or a reduction.
pub open spec fn gate_of(op: OperationView) -> Seq<char> {
    match op {
        OperationView::And(_, _) | OperationView::AndReduce(_) => "And"@,
        OperationView::Or(_, _) | OperationView::OrReduce(_) => "Or"@,
        OperationView::Xor(_, _) | OperationView::XorReduce(_) => "Xor"@,
        OperationView::Not(_) => "Not"@,
        OperationView::Wire(_) => "Buffer"@,
    }
}

/// Lowers an operation; the result holds the bus that carries its value.
///
/// The operation must have a width. A bus is its own value, or is copied to
/// `output` by `Buffer` gates. Any other operation writes to `output`, or to
/// a fresh wire of its width where none is given: its operands are lowered
/// first, the left before the right, each to a bus of its own choosing, and
/// then the gates of the operation itself are appended.
pub open spec fn resolve(st: Lowering, op: OperationView, output: Option<Seq<WirePartView>>) -> Option<
    (Lowering, Seq<WirePartView>),
>
    decreases op,
{
    match operation_width(op, st.locals) {
        None => None,
        Some(width) => match op {
            OperationView::Wire(bus) => match output {
                Some(out) => match emit_unary(st, bus, out, "Buffer"@) {
                    Some(done) => Some((done, out)),
                    None => None,
                },
                None => Some((st, bus)),
            },
            _ => {
                let target = match output {
                    Some(out) => Some((st, out)),
                    None => create_bus(st, width),
                };
                match target {
                    None => None,
                    Some((st1, out)) => {
                        let done = match op {
                            OperationView::Not(a) => match resolve(st1, *a, None) {
                                Some((st2, input)) => emit_unary(st2, input, out, gate_of(op)),
                                None => None,
                            },
                            OperationView::And(a, b) | OperationView::Or(a, b) | OperationView::Xor(
                                a,
                                b,
                            ) => match resolve(st1, *a, None) {
                                Some((st2, in1)) => match resolve(st2, *b, None) {
                                    Some((st3, in2)) => emit_binary(st3, in1, in2, out, gate_of(op)),
                                    None => None,
                                },
                                None => None,
                            },
                            OperationView::AndReduce(a) | OperationView::OrReduce(a)
                            | OperationView::XorReduce(a) => match resolve(st1, *a, None) {
                                Some((st2, input)) => reduce(st2, input, out, gate_of(op)),
                                None => None,
                            },
                            OperationView::Wire(_) => None,
                        };
                        match done {
                            Some(last) => Some((last, out)),
                            None => None,
                        }
                    },
                }
            },
        },
    }
}

/// Lowers the assignments from index `i` on, in order.
pub open spec fn resolve_all_from(st: Lowering, assignments: Seq<WireAssignmentView>, i: int) -> Option<
    Lowering,
>
    decreases assignments.len() - i,
{
    if i < 0 || i >= assignments.len() {
        Some(st)
    } else {
        match resolve(st, assignments[i].operation, Some(assignments[i].bus)) {
            Some((next, _)) => resolve_all_from(next, assignments, i + 1),
            None => None,
        }
    }
}

/// Every wire set gives the bus one bit per part.
pub open spec fn single_bits(bus: Seq<WirePartView>) -> bool {
    forall|locals: Seq<WireView>| #[trigger] bus_width(bus, locals) == Some(bus.len())
}

/// The bus that consists of one part.
fn one_part(part: WirePart) -> (bus: Vec<WirePart>)
    ensures
        bus.deep_view() == seq![part@],
{
    let mut bus: Vec<WirePart> = Vec::new();
    bus.push(part);
    assert(bus.deep_view() =~= seq![part@]);
    bus
}

/// The connection of the port `port` to `local`.
fn connect(local: Vec<WirePart>, port: &str) -> (c: Connection)
    ensures
        c@ == (ConnectionView { local: local.deep_view(), module: port@ }),
{
    Connection { local, module: port.to_owned() }
}

/// Bit `index` of `bus` inside `module`, as a bus of its own.
pub fn index_bus(module: &Module, bus: &Vec<WirePart>, index: usize) -> (r: Result<
    Vec<WirePart>,
    (),
>)
    ensures
        match r {
            Ok(bit) => match bit_of(bus.deep_view(), module@.locals, index as nat) {
                Some(part) => bit.deep_view() == seq![part],
                None => false,
            },
            Err(_) => bit_of(bus.deep_view(), module@.locals, index as nat) is None,
        },
{
    match index_part(module, bus, index) {
        Ok(part) => Ok(one_part(part)),
        Err(_) => Err(()),
    }
}

/// Bit `index` of `bus` inside `module`, as a bus part.
fn index_part(module: &Module, bus: &Vec<WirePart>, index: usize) -> (r: Result<WirePart, ()>)
    ensures
        match r {
            Ok(bit) => bit_of(bus.deep_view(), module@.locals, index as nat) == Some(bit@),
            Err(_) => bit_of(bus.deep_view(), module@.locals, index as nat) is None,
        },
{
    let ghost parts = bus.deep_view();
    let ghost locals = module@.locals;
    let mut rest: usize = index;
    let mut k: usize = 0;
    while k < bus.len()
        invariant
            k <= bus.len(),
            parts == bus.deep_view(),
            locals == module@.locals,
            bit_of(parts, locals, index as nat) == bit_from(parts, locals, k as int, rest as nat),
        decreases bus.len() - k,
    {
        assert(parts[k as int] == bus@[k as int]@);
        let width = match bus[k].width(module) {
            Ok(width) => width,
            Err(_) => {
                return Err(());
            },
        };
        if width > rest {
            let part = match &bus[k] {
                WirePart::Constant(values) => {
                    let mut bit: Vec<bool> = Vec::new();
                    bit.push(values[rest]);
                    assert(bit@ =~= seq![values@[rest as int]]);
                    WirePart::constant(bit)
                },
                WirePart::Local { name, range: WireRange::Total } => WirePart::ranged(
                    name.as_str(),
                    rest,
                    rest,
                ),
                WirePart::Local { name, range: WireRange::Ranged { from, to: _ } } => WirePart::ranged(
                    name.as_str(),
                    *from + rest,
                    *from + rest,
                ),
            };
            assert(part@ == bit_part(parts[k as int], rest as nat));
            return Ok(part);
        }
        rest -= width;
        k += 1;
    }
    Err(())
}

/// The two halves of a bus of width `W`: bits `0..W/2` and bits `W/2..W`,
/// each bit as a part of its own.
#[verifier::loop_isolation(false)]
pub fn slice_bus(module: &Module, bus: &Vec<WirePart>) -> (r: Result<(Vec<WirePart>, Vec<WirePart>), ()>)
    ensures
        match r {
            Ok((low, high)) => match bus_width(bus.deep_view(), module@.locals) {
                Some(w) => {
                    &&& bits_between(bus.deep_view(), module@.locals, 0, w / 2) == Some(
                        low.deep_view(),
                    )
                    &&& bits_between(bus.deep_view(), module@.locals, w / 2, w) == Some(
                        high.deep_view(),
                    )
                },
                None => false,
            },
            Err(_) => match bus_width(bus.deep_view(), module@.locals) {
                Some(w) => bits_between(bus.deep_view(), module@.locals, 0, w / 2) is None
                    || bits_between(bus.deep_view(), module@.locals, w / 2, w) is None,
                None => true,
            },
        },
{
    let ghost parts = bus.deep_view();
    let ghost locals = module@.locals;
    let width = match width_of_bus(bus, module) {
        Ok(width) => width,
        Err(_) => {
            return Err(());
        },
    };
    let mid = width / 2;
    let mut low: Vec<WirePart> = Vec::new();
    let mut high: Vec<WirePart> = Vec::new();
    let mut i: usize = 0;
    while i < width
        invariant
            i <= width,
            mid == width / 2,
            bits_between(parts, locals, 0, if i < mid {
                i as nat
            } else {
                mid as nat
            }) == Some(low.deep_view()),
            bits_between(parts, locals, mid as nat, if i < mid {
                mid as nat
            } else {
                i as nat
            }) == Some(high.deep_view()),
        decreases width - i,
    {
        let taken = match index_part(module, bus, i) {
            Ok(bit) => bit,
            Err(_) => {
                proof {
                    if i < mid {
                        lemma_bits_between_none(parts, locals, 0, mid as nat, i as nat);
                    } else {
                        lemma_bits_between_none(parts, locals, mid as nat, width as nat, i as nat);
                    }
                }
                return Err(());
            },
        };
        if i < mid {
            let ghost before = low;
            low.push(taken);
            proof {
                lemma_deep_view_push(before, low, taken);
            }
        } else {
            let ghost before = high;
            high.push(taken);
            proof {
                lemma_deep_view_push(before, high, taken);
            }
        }
        i += 1;
    }
    Ok((low, high))
}

/// Where a bit in `lo..hi` is missing, the bits `lo..hi` are.
pub proof fn lemma_bits_between_none(
    bus: Seq<WirePartView>,
    locals: Seq<WireView>,
    lo: nat,
    hi: nat,
    i: nat,
)
    requires
        lo <= i < hi,
        bit_of(bus, locals, i) is None,
    ensures
        bits_between(bus, locals, lo, hi) is None,
    decreases hi - lo,
{
    if i < hi - 1 {
        lemma_bits_between_none(bus, locals, lo, (hi - 1) as nat, i);
    }
}

/// Nothing that lowering had reached in `before` is lost in `after`: the
/// wires and instances are still there, in their places, and no generated
/// name is given out again.
pub open spec fn keeps(before: Lowering, after: Lowering) -> bool {
    &&& before.locals.len() <= after.locals.len()
    &&& forall|k: int| 0 <= k < before.locals.len() ==> #[trigger] after.locals[k] == before.locals[k]
    &&& before.instances.len() <= after.instances.len()
    &&& forall|k: int|
        0 <= k < before.instances.len() ==> #[trigger] after.instances[k] == before.instances[k]
    &&& before.counter <= after.counter
}

/// The lowering of one module.
pub struct Resolver<'a> {
    /// The module that receives new instances and temporary wires.
    pub module: &'a mut Module,
    /// The number of the next generated name.
    pub counter: u64,
}

impl<'a> Resolver<'a> {
    /// What lowering has reached: the module's wires and instances, and the
    /// number of the next generated name.
    pub open spec fn state(&self) -> Lowering {
        Lowering {
            locals: (*self.module)@.locals,
            instances: (*self.module)@.instances,
            counter: self.counter as nat,
        }
    }

    /// Starts lowering into `module`, with generated names numbered from 0.
    pub fn new(module: &'a mut Module) -> (r: Self)
        ensures
            r.counter == 0,
            *r.module == *old(module),
            *final(module) == *final(r.module),
    {
        Self { module, counter: 0 }
    }

    /// The next generated name; there is none once the numbers are used up.
    fn generate_name(&mut self) -> (r: Result<String, ()>)
        ensures
            *final(final(self).module) == *final(old(self).module),
            *final(self).module == *old(self).module,
            old(self).counter <= final(self).counter,
            match r {
                Ok(name) => {
                    &&& old(self).counter < u64::MAX
                    &&& name@ == gen_name(old(self).counter as nat)
                    &&& final(self).counter == old(self).counter + 1
                },
                Err(_) => old(self).counter == u64::MAX,
            },
    {
        if self.counter == u64::MAX {
            return Err(());
        }
        let mut name = String::from_str("gen_");
        push_decimal(&mut name, self.counter);
        self.counter += 1;
        Ok(name)
    }

    /// Declares a fresh private wire of `width` bits; the result is its name.
    fn create_wire(&mut self, width: usize) -> (r: Result<String, ()>)
        ensures
            *final(final(self).module) == *final(old(self).module),
            (*final(self).module)@.name == (*old(self).module)@.name,
            keeps(old(self).state(), final(self).state()),
            match r {
                Ok(name) => {
                    &&& old(self).counter < u64::MAX
                    &&& name@ == gen_name(old(self).counter as nat)
                    &&& final(self).state() == (Lowering {
                        locals: old(self).state().locals.push(
                            WireView { name: name@, width: width as nat, kind: WireKind::Private },
                        ),
                        counter: old(self).counter as nat + 1,
                        ..old(self).state()
                    })
                },
                Err(_) => old(self).counter == u64::MAX,
            },
    {
        let name = match self.generate_name() {
            Ok(name) => name,
            Err(_) => {
                return Err(());
            },
        };
        let wire = Wire { name: name.clone(), kind: WireKind::Private, width };
        let ghost before = self.module.locals;
        self.module.locals.push(wire);
        proof {
            lemma_deep_view_push(before, self.module.locals, wire);
        }
        Ok(name)
    }

    /// Declares a fresh private wire of `width` bits; the result is the bus
    /// that is the whole of it.
    fn create_bus(&mut self, width: usize) -> (r: Result<Vec<WirePart>, ()>)
        ensures
            *final(final(self).module) == *final(old(self).module),
            (*final(self).module)@.name == (*old(self).module)@.name,
            keeps(old(self).state(), final(self).state()),
            match r {
                Ok(bus) => create_bus(old(self).state(), width as nat) == Some(
                    (final(self).state(), bus.deep_view()),
                ),
                Err(_) => create_bus(old(self).state(), width as nat) is None,
            },
    {
        if width == 0 {
            return Err(());
        }
        let name = match self.create_wire(width) {
            Ok(name) => name,
            Err(_) => {
                return Err(());
            },
        };
        Ok(one_part(WirePart::ranged(name.as_str(), 0, width - 1)))
    }

    /// Appends one one-input gate of the module `gate_type` for each bit of
    /// `input`, driving the same bit of `output`.
    #[verifier::loop_isolation(false)]
    fn unary_operation(&mut self, input: &Vec<WirePart>, output: &Vec<WirePart>, gate_type: &str) -> (r:
        Result<(), ()>)
        ensures
            *final(final(self).module) == *final(old(self).module),
            (*final(self).module)@.name == (*old(self).module)@.name,
            keeps(old(self).state(), final(self).state()),
            match r {
                Ok(_) => emit_unary(
                    old(self).state(),
                    input.deep_view(),
                    output.deep_view(),
                    gate_type@,
                ) == Some(final(self).state()),
                Err(_) => emit_unary(
                    old(self).state(),
                    input.deep_view(),
                    output.deep_view(),
                    gate_type@,
                ) is None,
            },
    {
        let ghost start = self.state();
        let width = match width_of_bus(input, self.module) {
            Ok(width) => width,
            Err(_) => {
                return Err(());
            },
        };
        let mut i: usize = 0;
        while i < width
            invariant
                i <= width,
                *final(self.module) == *final(old(self).module),
                (*self.module)@.name == (*old(self).module)@.name,
                keeps(old(self).state(), self.state()),
                unary_from(
                    start,
                    input.deep_view(),
                    output.deep_view(),
                    gate_type@,
                    width as nat,
                    0,
                ) == unary_from(
                    self.state(),
                    input.deep_view(),
                    output.deep_view(),
                    gate_type@,
                    width as nat,
                    i as nat,
                ),
            decreases width - i,
        {
            let ini = match index_bus(self.module, input, i) {
                Ok(bit) => bit,
                Err(_) => {
                    return Err(());
                },
            };
            let outi = match index_bus(self.module, output, i) {
                Ok(bit) => bit,
                Err(_) => {
                    return Err(());
                },
            };
            let name = match self.generate_name() {
                Ok(name) => name,
                Err(_) => {
                    return Err(());
                },
            };
            let mut inputs: Vec<Connection> = Vec::new();
            inputs.push(connect(ini, "in"));
            let mut outputs: Vec<Connection> = Vec::new();
            outputs.push(connect(outi, "out"));
            let gate = Instance { module: gate_type.to_owned(), name, inputs, outputs };
            proof {
                assert(gate@.inputs =~= seq![inputs@[0]@]);
                assert(gate@.outputs =~= seq![outputs@[0]@]);
            }
            let ghost before = self.module.instances;
            self.module.instances.push(gate);
            proof {
                lemma_deep_view_push(before, self.module.instances, gate);
            }
            i += 1;
        }
        Ok(())
    }

    /// Appends one two-input gate of the module `gate_type` for each bit of
    /// `in1`, reading the same bit of `in2` and driving that of `out`.
    #[verifier::loop_isolation(false)]
    fn binary_operation(
        &mut self,
        in1: &Vec<WirePart>,
        in2: &Vec<WirePart>,
        out: &Vec<WirePart>,
        gate_type: &str,
    ) -> (r: Result<(), ()>)
        ensures
            *final(final(self).module) == *final(old(self).module),
            (*final(self).module)@.name == (*old(self).module)@.name,
            keeps(old(self).state(), final(self).state()),
            match r {
                Ok(_) => emit_binary(
                    old(self).state(),
                    in1.deep_view(),
                    in2.deep_view(),
                    out.deep_view(),
                    gate_type@,
                ) == Some(final(self).state()),
                Err(_) => emit_binary(
                    old(self).state(),
                    in1.deep_view(),
                    in2.deep_view(),
                    out.deep_view(),
                    gate_type@,
                ) is None,
            },
    {
        let ghost start = self.state();
        let width = match width_of_bus(in1, self.module) {
            Ok(width) => width,
            Err(_) => {
                return Err(());
            },
        };
        let mut i: usize = 0;
        while i < width
            invariant
                i <= width,
                *final(self.module) == *final(old(self).module),
                (*self.module)@.name == (*old(self).module)@.name,
                keeps(old(self).state(), self.state()),
                binary_from(
                    start,
                    in1.deep_view(),
                    in2.deep_view(),
                    out.deep_view(),
                    gate_type@,
                    width as nat,
                    0,
                ) == binary_from(
                    self.state(),
                    in1.deep_view(),
                    in2.deep_view(),
                    out.deep_view(),
                    gate_type@,
                    width as nat,
                    i as nat,
                ),
            decreases width - i,
        {
            let in1i = match index_bus(self.module, in1, i) {
                Ok(bit) => bit,
                Err(_) => {
                    return Err(());
                },
            };
            let in2i = match index_bus(self.module, in2, i) {
                Ok(bit) => bit,
                Err(_) => {
                    return Err(());
                },
            };
            let outi = match index_bus(self.module, out, i) {
                Ok(bit) => bit,
                Err(_) => {
                    return Err(());
                },
            };
            let name = match self.generate_name() {
                Ok(name) => name,
                Err(_) => {
                    return Err(());
                },
            };
            let mut inputs: Vec<Connection> = Vec::new();
            inputs.push(connect(in1i, "a"));
            inputs.push(connect(in2i, "b"));
            let mut outputs: Vec<Connection> = Vec::new();
            outputs.push(connect(outi, "out"));
            let gate = Instance { module: gate_type.to_owned(), name, inputs, outputs };
            proof {
                assert(gate@.inputs =~= seq![inputs@[0]@, inputs@[1]@]);
                assert(gate@.outputs =~= seq![outputs@[0]@]);
            }
            let ghost before = self.module.instances;
            self.module.instances.push(gate);
            proof {
                lemma_deep_view_push(before, self.module.instances, gate);
            }
            i += 1;
        }
        Ok(())
    }

    /// Reduces one half of a bus; the result is the one-bit bus that stands
    /// for it.
    fn reduce_half(&mut self, half: Vec<WirePart>, gate_type: &str, Ghost(bound): Ghost<nat>) -> (r:
        Result<Vec<WirePart>, ()>)
        requires
            single_bits(half.deep_view()),
            half.deep_view().len() < bound,
        ensures
            *final(final(self).module) == *final(old(self).module),
            (*final(self).module)@.name == (*old(self).module)@.name,
            keeps(old(self).state(), final(self).state()),
            match r {
                Ok(bus) => reduce_half(old(self).state(), half.deep_view(), gate_type@, bound)
                    == Some((final(self).state(), bus.deep_view())),
                Err(_) => reduce_half(old(self).state(), half.deep_view(), gate_type@, bound) is None,
            },
        decreases bound, 0nat,
    {
        let ghost parts = half.deep_view();
        assert(bus_width(parts, self.state().locals) == Some(parts.len()));
        let width = match width_of_bus(&half, self.module) {
            Ok(width) => width,
            Err(_) => {
                return Err(());
            },
        };
        if width == 1 {
            return Ok(half);
        }
        let wire = match self.create_bus(1) {
            Ok(wire) => wire,
            Err(_) => {
                return Err(());
            },
        };
        assert(bus_width(parts, self.state().locals) == Some(parts.len()));
        match self.reduce_operation(half, &wire, gate_type) {
            Ok(_) => Ok(wire),
            Err(_) => Err(()),
        }
    }

    /// Reduces `input` to bit 0 of `out` with a balanced tree of two-input
    /// gates of the module `gate_type`.
    fn reduce_operation(&mut self, input: Vec<WirePart>, out: &Vec<WirePart>, gate_type: &str) -> (r:
        Result<(), ()>)
        ensures
            *final(final(self).module) == *final(old(self).module),
            (*final(self).module)@.name == (*old(self).module)@.name,
            keeps(old(self).state(), final(self).state()),
            match r {
                Ok(_) => reduce(old(self).state(), input.deep_view(), out.deep_view(), gate_type@)
                    == Some(final(self).state()),
                Err(_) => reduce(old(self).state(), input.deep_view(), out.deep_view(), gate_type@)
                    is None,
            },
        decreases width_or_zero(input.deep_view(), old(self).state().locals), 1nat,
    {
        let ghost start = self.state();
        let ghost parts = input.deep_view();
        let width = match width_of_bus(&input, self.module) {
            Ok(width) => width,
            Err(_) => {
                return Err(());
            },
        };
        if width == 0 {
            return Err(());
        }
        if width == 1 {
            return self.unary_operation(&input, out, "Buffer");
        }
        let (low, high) = match slice_bus(self.module, &input) {
            Ok(halves) => halves,
            Err(_) => {
                return Err(());
            },
        };
        proof {
            let w = width as nat;
            assert forall|locals: Seq<WireView>| #[trigger]
                bus_width(low.deep_view(), locals) == Some(low.deep_view().len()) by {
                lemma_bits_between_width(parts, start.locals, 0, w / 2, locals);
            }
            assert forall|locals: Seq<WireView>| #[trigger]
                bus_width(high.deep_view(), locals) == Some(high.deep_view().len()) by {
                lemma_bits_between_width(parts, start.locals, w / 2, w, locals);
            }
            lemma_bits_between_width(parts, start.locals, 0, w / 2, start.locals);
            lemma_bits_between_width(parts, start.locals, w / 2, w, start.locals);
        }
        let r1 = match self.reduce_half(low, gate_type, Ghost(width as nat)) {
            Ok(bus) => bus,
            Err(_) => {
                return Err(());
            },
        };
        let r2 = match self.reduce_half(high, gate_type, Ghost(width as nat)) {
            Ok(bus) => bus,
            Err(_) => {
                return Err(());
            },
        };
        self.binary_operation(&r1, &r2, out, gate_type)
    }

    /// Lowers `op`; the result is the bus that carries its value, which is
    /// `output` where one is given.
    fn resolve_operation(&mut self, op: Operation, output: Option<Vec<WirePart>>) -> (r: Result<
        Vec<WirePart>,
        (),
    >)
        ensures
            *final(final(self).module) == *final(old(self).module),
            (*final(self).module)@.name == (*old(self).module)@.name,
            keeps(old(self).state(), final(self).state()),
            match r {
                Ok(bus) => resolve(old(self).state(), op@, crate::assignment::bus_option(output))
                    == Some((final(self).state(), bus.deep_view())),
                Err(_) => resolve(old(self).state(), op@, crate::assignment::bus_option(output))
                    is None,
            },
        decreases op,
    {
        let width = match op.width(self.module) {
            Ok(width) => width,
            Err(_) => {
                return Err(());
            },
        };
        if let Operation::Wire(bus) = op {
            return match output {
                Some(out) => match self.unary_operation(&bus, &out, "Buffer") {
                    Ok(_) => Ok(out),
                    Err(_) => Err(()),
                },
                None => Ok(bus),
            };
        }
        let out = match output {
            Some(out) => out,
            None => match self.create_bus(width) {
                Ok(out) => out,
                Err(_) => {
                    return Err(());
                },
            },
        };
        let done = match op {
            Operation::Wire(_) => Err(()),
            Operation::Not(a) => match self.resolve_operation(*a, None) {
                Ok(input) => self.unary_operation(&input, &out, "Not"),
                Err(_) => Err(()),
            },
            Operation::And(a, b) => match self.resolve_operation(*a, None) {
                Ok(in1) => match self.resolve_operation(*b, None) {
                    Ok(in2) => self.binary_operation(&in1, &in2, &out, "And"),
                    Err(_) => Err(()),
                },
                Err(_) => Err(()),
            },
            Operation::Or(a, b) => match self.resolve_operation(*a, None) {
                Ok(in1) => match self.resolve_operation(*b, None) {
                    Ok(in2) => self.binary_operation(&in1, &in2, &out, "Or"),
                    Err(_) => Err(()),
                },
                Err(_) => Err(()),
            },
            Operation::Xor(a, b) => match self.resolve_operation(*a, None) {
                Ok(in1) => match self.resolve_operation(*b, None) {
                    Ok(in2) => self.binary_operation(&in1, &in2, &out, "Xor"),
                    Err(_) => Err(()),
                },
                Err(_) => Err(()),
            },
            Operation::AndReduce(a) => match self.resolve_operation(*a, None) {
                Ok(input) => self.reduce_operation(input, &out, "And"),
                Err(_) => Err(()),
            },
            Operation::OrReduce(a) => match self.resolve_operation(*a, None) {
                Ok(input) => self.reduce_operation(input, &out, "Or"),
                Err(_) => Err(()),
            },
            Operation::XorReduce(a) => match self.resolve_operation(*a, None) {
                Ok(input) => self.reduce_operation(input, &out, "Xor"),
                Err(_) => Err(()),
            },
        };
        match done {
            Ok(_) => Ok(out),
            Err(_) => Err(()),
        }
    }

    /// Lowers one assignment.
    fn resolve_assignment(&mut self, assignment: WireAssignment) -> (r: Result<(), ()>)
        ensures
            *final(final(self).module) == *final(old(self).module),
            (*final(self).module)@.name == (*old(self).module)@.name,
            keeps(old(self).state(), final(self).state()),
            match r {
                Ok(_) => match resolve(
                    old(self).state(),
                    assignment@.operation,
                    Some(assignment@.bus),
                ) {
                    Some((next, _)) => next == final(self).state(),
                    None => false,
                },
                Err(_) => resolve(old(self).state(), assignment@.operation, Some(assignment@.bus))
                    is None,
            },
    {
        let bus = assignment.bus;
        let operation = assignment.operation;
        match self.resolve_operation(operation, Some(bus)) {
            Ok(_) => Ok(()),
            Err(_) => Err(()),
        }
    }

    /// Lowers the assignments into the module, in order: each becomes gate
    /// instances, and temporary wires where an operand needs one.
    #[verifier::loop_isolation(false)]
    pub fn resolve_assignments(&mut self, assignments: Vec<WireAssignment>) -> (r: Result<(), ()>)
        ensures
            *final(final(self).module) == *final(old(self).module),
            (*final(self).module)@.name == (*old(self).module)@.name,
            keeps(old(self).state(), final(self).state()),
            match r {
                Ok(_) => resolve_all_from(old(self).state(), assignments.deep_view(), 0) == Some(
                    final(self).state(),
                ),
                Err(_) => resolve_all_from(old(self).state(), assignments.deep_view(), 0) is None,
            },
    {
        let ghost list = assignments.deep_view();
        let mut i: usize = 0;
        while i < assignments.len()
            invariant
                i <= assignments.len(),
                *final(self.module) == *final(old(self).module),
                (*self.module)@.name == (*old(self).module)@.name,
                keeps(old(self).state(), self.state()),
                resolve_all_from(old(self).state(), list, 0) == resolve_all_from(
                    self.state(),
                    list,
                    i as int,
                ),
            decreases assignments.len() - i,
        {
            let assignment = WireAssignment {
                bus: clone_bus(&assignments[i].bus),
                operation: assignments[i].operation.clone(),
            };
            assert(assignment@ == list[i as int]);
            match self.resolve_assignment(assignment) {
                Ok(_) => {},
                Err(_) => {
                    return Err(());
                },
            }
            i += 1;
        }
        Ok(())
    }
}

/// The view of an optional bus.
pub open spec fn bus_option(output: Option<Vec<WirePart>>) -> Option<Seq<WirePartView>> {
    match output {
        Some(bus) => Some(bus.deep_view()),
        None => None,
    }
}

} // verus!
