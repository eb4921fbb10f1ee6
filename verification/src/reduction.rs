//! What the gates of a lowered reduction compute: in every assignment of
//! values to wire bits that satisfies the gates, the output bit is the fold
//! of the operation over all bits of the reduced bus.

use vstd::prelude::*;
use crate::assignment::{
    binary_from, binary_gate, bit_from, bit_of, bit_part, bits_between, create_bus, emit_binary,
    emit_unary, gen_name, reduce, reduce_half, resolve, unary_from, unary_gate, Lowering,
};
use crate::parsed::{
    bus_width, part_width, InstanceView, OperationView, WirePartView, WireRange, WireView,
};

verus! {

/// The value of a part that denotes one bit, where `env` gives the value of
/// each bit of each wire.
pub open spec fn part_value(part: WirePartView, env: Map<(Seq<char>, nat), bool>) -> bool {
    match part {
        WirePartView::Constant(values) => values[0],
        WirePartView::Local { name, range: WireRange::Ranged { from, to } } => env[(
            name,
            from as nat,
        )],
        WirePartView::Local { name, range: WireRange::Total } => env[(name, 0nat)],
    }
}

/// The modules of gates that a reduction folds with.
pub open spec fn is_fold_gate(gate: Seq<char>) -> bool {
    gate == "And"@ || gate == "Or"@ || gate == "Xor"@
}

/// What a two-input gate computes.
pub open spec fn gate_value(gate: Seq<char>, a: bool, b: bool) -> bool {
    if gate == "And"@ {
        a && b
    } else if gate == "Or"@ {
        a || b
    } else {
        a != b
    }
}

/// Whether the values of `env` agree with an instance of a gate: a gate with
/// two one-bit inputs has the value of its operation at its output, and a
/// `Buffer` has its input there. Nothing is asked of other instances.
pub open spec fn holds(inst: InstanceView, env: Map<(Seq<char>, nat), bool>) -> bool {
    if inst.outputs.len() == 1 && inst.outputs[0].local.len() == 1 {
        let out = part_value(inst.outputs[0].local[0], env);
        if inst.inputs.len() == 2 && inst.inputs[0].local.len() == 1 && inst.inputs[1].local.len()
            == 1 && is_fold_gate(inst.module) {
            out == gate_value(
                inst.module,
                part_value(inst.inputs[0].local[0], env),
                part_value(inst.inputs[1].local[0], env),
            )
        } else if inst.inputs.len() == 1 && inst.inputs[0].local.len() == 1 && inst.module
            == "Buffer"@ {
            out == part_value(inst.inputs[0].local[0], env)
        } else {
            true
        }
    } else {
        true
    }
}

/// The values of `env` agree with the instances `from..to`.
pub open spec fn satisfied(
    instances: Seq<InstanceView>,
    from: int,
    to: int,
    env: Map<(Seq<char>, nat), bool>,
) -> bool {
    forall|k: int| from <= k < to ==> holds(#[trigger] instances[k], env)
}

/// The value of bit `i` of a bus.
pub open spec fn bit_value(
    bus: Seq<WirePartView>,
    locals: Seq<WireView>,
    i: nat,
    env: Map<(Seq<char>, nat), bool>,
) -> bool {
    part_value(bit_of(bus, locals, i)->0, env)
}

/// The fold of the operation of `gate` over bits `lo..hi` of a bus, from
/// the lowest bit up.
pub open spec fn fold_bits(
    gate: Seq<char>,
    bus: Seq<WirePartView>,
    locals: Seq<WireView>,
    env: Map<(Seq<char>, nat), bool>,
    lo: nat,
    hi: nat,
) -> bool
    decreases hi - lo,
{
    if hi <= lo + 1 {
        bit_value(bus, locals, lo, env)
    } else {
        gate_value(
            gate,
            fold_bits(gate, bus, locals, env, lo, (hi - 1) as nat),
            bit_value(bus, locals, (hi - 1) as nat, env),
        )
    }
}

/// The fold with `And` is the conjunction of the bits.
pub proof fn lemma_and_fold(
    bus: Seq<WirePartView>,
    locals: Seq<WireView>,
    env: Map<(Seq<char>, nat), bool>,
    lo: nat,
    hi: nat,
)
    requires
        lo < hi,
    ensures
        fold_bits("And"@, bus, locals, env, lo, hi) <==> forall|i: nat|
            lo <= i < hi ==> bit_value(bus, locals, i, env),
    decreases hi - lo,
{
    if hi > lo + 1 {
        lemma_and_fold(bus, locals, env, lo, (hi - 1) as nat);
    }
}

/// The fold with `Or` is the disjunction of the bits.
pub proof fn lemma_or_fold(
    bus: Seq<WirePartView>,
    locals: Seq<WireView>,
    env: Map<(Seq<char>, nat), bool>,
    lo: nat,
    hi: nat,
)
    requires
        lo < hi,
    ensures
        fold_bits("Or"@, bus, locals, env, lo, hi) <==> exists|i: nat|
            lo <= i < hi && bit_value(bus, locals, i, env),
    decreases hi - lo,
{
    reveal_strlit("Or");
    reveal_strlit("And");
    assert("Or"@ != "And"@) by {
        assert("Or"@.len() == 2);
        assert("And"@.len() == 3);
    }
    if hi > lo + 1 {
        lemma_or_fold(bus, locals, env, lo, (hi - 1) as nat);
        if fold_bits("Or"@, bus, locals, env, lo, hi) {
            let last = (hi - 1) as nat;
            if bit_value(bus, locals, last, env) {
                assert(lo <= last && last < hi && bit_value(bus, locals, last, env));
            } else {
                let i = choose|i: nat| lo <= i < hi - 1 && bit_value(bus, locals, i, env);
                assert(lo <= i < hi && bit_value(bus, locals, i, env));
            }
        }
    } else {
        if exists|i: nat| lo <= i < hi && bit_value(bus, locals, i, env) {
            let i = choose|i: nat| lo <= i < hi && bit_value(bus, locals, i, env);
            assert(i == lo);
        } else {
        }
        if fold_bits("Or"@, bus, locals, env, lo, hi) {
            assert(lo <= lo < hi && bit_value(bus, locals, lo, env));
        }
    }
}

/// A fold over a range is the operation applied to the folds over its two
/// parts.
pub proof fn lemma_fold_split(
    gate: Seq<char>,
    bus: Seq<WirePartView>,
    locals: Seq<WireView>,
    env: Map<(Seq<char>, nat), bool>,
    lo: nat,
    mid: nat,
    hi: nat,
)
    requires
        lo < mid < hi,
    ensures
        fold_bits(gate, bus, locals, env, lo, hi) == gate_value(
            gate,
            fold_bits(gate, bus, locals, env, lo, mid),
            fold_bits(gate, bus, locals, env, mid, hi),
        ),
    decreases hi - mid,
{
    if hi > mid + 1 {
        lemma_fold_split(gate, bus, locals, env, lo, mid, (hi - 1) as nat);
    }
}

/// Folds over ranges whose bits have the same values are the same.
pub proof fn lemma_fold_same(
    gate: Seq<char>,
    bus: Seq<WirePartView>,
    locals: Seq<WireView>,
    lo: nat,
    other: Seq<WirePartView>,
    other_locals: Seq<WireView>,
    other_lo: nat,
    n: nat,
    env: Map<(Seq<char>, nat), bool>,
)
    requires
        n >= 1,
        forall|i: nat|
            i < n ==> bit_value(bus, locals, lo + i, env) == #[trigger] bit_value(
                other,
                other_locals,
                other_lo + i,
                env,
            ),
    ensures
        fold_bits(gate, bus, locals, env, lo, lo + n) == fold_bits(
            gate,
            other,
            other_locals,
            env,
            other_lo,
            other_lo + n,
        ),
    decreases n,
{
    assert(bit_value(bus, locals, lo + 0nat, env) == bit_value(
        other,
        other_locals,
        other_lo + 0nat,
        env,
    ));
    if n > 1 {
        let m = (n - 1) as nat;
        assert forall|i: nat| i < m implies bit_value(bus, locals, lo + i, env)
            == #[trigger] bit_value(other, other_locals, other_lo + i, env) by {
            assert(i < n);
        }
        lemma_fold_same(gate, bus, locals, lo, other, other_locals, other_lo, m, env);
        assert(bit_value(bus, locals, lo + m, env) == bit_value(
            other,
            other_locals,
            other_lo + m,
            env,
        ));
    }
}

/// `done` holds the instances of `st` and more after them.
pub open spec fn extends(st: Lowering, done: Lowering) -> bool {
    &&& st.instances.len() <= done.instances.len()
    &&& forall|k: int| 0 <= k < st.instances.len() ==> #[trigger] done.instances[k] == st.instances[k]
}

/// A part that denotes one bit whatever wires are declared: a constant of
/// one bit, or one bit of a wire.
pub open spec fn unit_part(part: WirePartView) -> bool {
    match part {
        WirePartView::Constant(values) => values.len() == 1,
        WirePartView::Local { name, range: WireRange::Ranged { from, to } } => from == to,
        WirePartView::Local { name, range: WireRange::Total } => false,
    }
}

/// Every part of the bus denotes one bit.
pub open spec fn units(bus: Seq<WirePartView>) -> bool {
    forall|k: int| 0 <= k < bus.len() ==> unit_part(#[trigger] bus[k])
}

/// A bit taken from a bus is a part that denotes one bit.
pub proof fn lemma_bit_is_unit(bus: Seq<WirePartView>, locals: Seq<WireView>, k: int, index: nat)
    requires
        bit_from(bus, locals, k, index) is Some,
    ensures
        unit_part(bit_from(bus, locals, k, index)->0),
    decreases bus.len() - k,
{
    if 0 <= k < bus.len() {
        match part_width(bus[k], locals) {
            None => {},
            Some(w) => {
                if w <= index {
                    lemma_bit_is_unit(bus, locals, k + 1, (index - w) as nat);
                } else {
                    match bus[k] {
                        WirePartView::Constant(values) => {
                            assert(seq![values[index as int]].len() == 1);
                        },
                        WirePartView::Local { name, range: WireRange::Total } => {},
                        WirePartView::Local { name, range: WireRange::Ranged { from, to } } => {},
                    }
                }
            },
        }
    }
}

/// In a bus of one-bit parts, bit `i` is part `i`, in value.
pub proof fn lemma_unit_bit(
    bus: Seq<WirePartView>,
    locals: Seq<WireView>,
    i: int,
    env: Map<(Seq<char>, nat), bool>,
)
    requires
        0 <= i < bus.len(),
        units(bus),
    ensures
        bit_of(bus, locals, i as nat) == Some(bit_part(bus[i], 0)),
        bit_value(bus, locals, i as nat, env) == part_value(bus[i], env),
{
    lemma_unit_bit_from(bus, locals, 0, i);
    assert(unit_part(bus[i]));
    match bus[i] {
        WirePartView::Constant(values) => {},
        WirePartView::Local { name, range: WireRange::Total } => {},
        WirePartView::Local { name, range: WireRange::Ranged { from, to } } => {},
    }
}

/// Counting one-bit parts from part `k` on.
pub proof fn lemma_unit_bit_from(bus: Seq<WirePartView>, locals: Seq<WireView>, k: int, i: int)
    requires
        0 <= k <= i < bus.len(),
        units(bus),
    ensures
        bit_from(bus, locals, k, (i - k) as nat) == Some(bit_part(bus[i], 0)),
    decreases i - k,
{
    assert(unit_part(bus[k]));
    assert(part_width(bus[k], locals) == Some(1nat));
    if k < i {
        lemma_unit_bit_from(bus, locals, k + 1, i);
    }
}

/// A bus of one-bit parts is as wide as it has parts.
pub proof fn lemma_units_width(bus: Seq<WirePartView>, locals: Seq<WireView>)
    requires
        units(bus),
        bus.len() <= usize::MAX,
    ensures
        bus_width(bus, locals) == Some(bus.len()),
    decreases bus.len(),
{
    if bus.len() > 0 {
        let front = bus.drop_last();
        assert forall|k: int| 0 <= k < front.len() implies unit_part(#[trigger] front[k]) by {
            assert(front[k] == bus[k]);
        }
        lemma_units_width(front, locals);
        assert(unit_part(bus[bus.len() - 1]));
    }
}

/// The bits cut out of a bus form a bus of one-bit parts whose part `i` has
/// the value of bit `lo + i` of the bus they were cut from.
pub proof fn lemma_cut_bits(
    bus: Seq<WirePartView>,
    locals: Seq<WireView>,
    lo: nat,
    hi: nat,
    env: Map<(Seq<char>, nat), bool>,
)
    requires
        bits_between(bus, locals, lo, hi) is Some,
        lo <= hi,
    ensures
        units(bits_between(bus, locals, lo, hi)->0),
        bits_between(bus, locals, lo, hi)->0.len() == hi - lo,
        forall|i: int|
            0 <= i < hi - lo ==> part_value(
                #[trigger] bits_between(bus, locals, lo, hi)->0[i],
                env,
            ) == bit_value(bus, locals, (lo + i) as nat, env),
    decreases hi - lo,
{
    if lo < hi {
        let last = (hi - 1) as nat;
        let before = bits_between(bus, locals, lo, last)->0;
        let bit = bit_of(bus, locals, last)->0;
        let cut = before.push(bit);
        assert(bits_between(bus, locals, lo, hi) == Some(cut));
        lemma_cut_bits(bus, locals, lo, last, env);
        lemma_bit_is_unit(bus, locals, 0, last);
        assert forall|k: int| 0 <= k < cut.len() implies unit_part(#[trigger] cut[k]) by {
            if k < before.len() {
                assert(cut[k] == before[k]);
            }
        }
        assert forall|i: int| 0 <= i < hi - lo implies part_value(#[trigger] cut[i], env)
            == bit_value(bus, locals, (lo + i) as nat, env) by {
            if i < before.len() {
                assert(cut[i] == before[i]);
            }
        }
    }
}

/// The state after one half of a bus was reduced.
pub open spec fn half_state(st: Lowering, half: Seq<WirePartView>, gate: Seq<char>, bound: nat) -> Lowering {
    match reduce_half(st, half, gate, bound) {
        Some((done, _)) => done,
        None => st,
    }
}

/// The bus that stands for one half of a bus after its reduction.
pub open spec fn half_bus(st: Lowering, half: Seq<WirePartView>, gate: Seq<char>, bound: nat) -> Seq<
    WirePartView,
> {
    match reduce_half(st, half, gate, bound) {
        Some((_, bus)) => bus,
        None => half,
    }
}

/// One gate is what a two-input operation on one-bit buses appends.
pub proof fn lemma_binary_once(
    st: Lowering,
    in1: Seq<WirePartView>,
    in2: Seq<WirePartView>,
    out: Seq<WirePartView>,
    gate: Seq<char>,
)
    requires
        bus_width(in1, st.locals) == Some(1nat),
        emit_binary(st, in1, in2, out, gate) is Some,
    ensures
        bit_of(in1, st.locals, 0) is Some,
        bit_of(in2, st.locals, 0) is Some,
        bit_of(out, st.locals, 0) is Some,
        emit_binary(st, in1, in2, out, gate)->0 == (Lowering {
            instances: st.instances.push(
                binary_gate(
                    gate,
                    gen_name(st.counter),
                    bit_of(in1, st.locals, 0)->0,
                    bit_of(in2, st.locals, 0)->0,
                    bit_of(out, st.locals, 0)->0,
                ),
            ),
            counter: st.counter + 1,
            ..st
        }),
{
    reveal_with_fuel(binary_from, 2);
}

/// One `Buffer` is what the copy of a one-bit bus appends.
pub proof fn lemma_unary_once(
    st: Lowering,
    input: Seq<WirePartView>,
    out: Seq<WirePartView>,
    gate: Seq<char>,
)
    requires
        bus_width(input, st.locals) == Some(1nat),
        emit_unary(st, input, out, gate) is Some,
    ensures
        bit_of(input, st.locals, 0) is Some,
        bit_of(out, st.locals, 0) is Some,
        emit_unary(st, input, out, gate)->0 == (Lowering {
            instances: st.instances.push(
                unary_gate(
                    gate,
                    gen_name(st.counter),
                    bit_of(input, st.locals, 0)->0,
                    bit_of(out, st.locals, 0)->0,
                ),
            ),
            counter: st.counter + 1,
            ..st
        }),
{
    reveal_with_fuel(unary_from, 2);
}

/// What the reduction of one half of a bus yields: a bus of one bit whose
/// value, in every assignment that satisfies the appended gates, is the fold
/// over the half.
pub proof fn lemma_reduce_half(
    st: Lowering,
    half: Seq<WirePartView>,
    gate: Seq<char>,
    bound: nat,
    env: Map<(Seq<char>, nat), bool>,
)
    requires
        is_fold_gate(gate),
        units(half),
        1 <= half.len() <= usize::MAX,
        reduce_half(st, half, gate, bound) is Some,
        satisfied(
            half_state(st, half, gate, bound).instances,
            st.instances.len() as int,
            half_state(st, half, gate, bound).instances.len() as int,
            env,
        ),
    ensures
        extends(st, half_state(st, half, gate, bound)),
        units(half_bus(st, half, gate, bound)),
        half_bus(st, half, gate, bound).len() == 1,
        part_value(half_bus(st, half, gate, bound)[0], env) == fold_bits(
            gate,
            half,
            st.locals,
            env,
            0,
            half.len(),
        ),
    decreases bound, 0nat,
{
    let (done, r) = reduce_half(st, half, gate, bound)->0;
    lemma_units_width(half, st.locals);
    if half.len() == 1 {
        lemma_unit_bit(half, st.locals, 0, env);
    } else {
        let (made, wire) = create_bus(st, 1)->0;
        lemma_units_width(half, made.locals);
        assert(reduce(made, half, wire, gate) == Some(done));
        assert(made.instances == st.instances);
        lemma_reduce(made, half, wire, gate, env);
        assert(wire.len() == 1);
        assert(unit_part(wire[0]));
        lemma_unit_bit(wire, done.locals, 0, env);
        assert forall|i: nat| i < half.len() implies bit_value(half, made.locals, 0 + i, env)
            == #[trigger] bit_value(half, st.locals, 0 + i, env) by {
            lemma_unit_bit(half, made.locals, i as int, env);
            lemma_unit_bit(half, st.locals, i as int, env);
        }
        lemma_fold_same(gate, half, made.locals, 0, half, st.locals, 0, half.len(), env);
    }
}

/// The semantics of a lowered reduction: in every assignment of values to
/// wire bits that satisfies the gates the reduction has appended, bit 0 of
/// the output has the fold of the operation over all bits of the input.
pub proof fn lemma_reduce(
    st: Lowering,
    input: Seq<WirePartView>,
    out: Seq<WirePartView>,
    gate: Seq<char>,
    env: Map<(Seq<char>, nat), bool>,
)
    requires
        is_fold_gate(gate),
        reduce(st, input, out, gate) is Some,
        satisfied(
            reduce(st, input, out, gate)->0.instances,
            st.instances.len() as int,
            reduce(st, input, out, gate)->0.instances.len() as int,
            env,
        ),
    ensures
        extends(st, reduce(st, input, out, gate)->0),
        bus_width(input, st.locals) is Some,
        bus_width(input, st.locals)->0 >= 1,
        bit_value(out, reduce(st, input, out, gate)->0.locals, 0, env) == fold_bits(
            gate,
            input,
            st.locals,
            env,
            0,
            bus_width(input, st.locals)->0,
        ),
    decreases crate::assignment::width_or_zero(input, st.locals), 1nat,
{
    let done = reduce(st, input, out, gate)->0;
    let w = bus_width(input, st.locals)->0;
    if w == 1 {
        lemma_unary_once(st, input, out, "Buffer"@);
        let made = unary_gate(
            "Buffer"@,
            gen_name(st.counter),
            bit_of(input, st.locals, 0)->0,
            bit_of(out, st.locals, 0)->0,
        );
        assert(done.instances[st.instances.len() as int] == made);
        assert(holds(made, env));
        assert(made.inputs[0].local[0] == bit_of(input, st.locals, 0)->0);
        assert(made.outputs[0].local[0] == bit_of(out, st.locals, 0)->0);
        reveal_strlit("Buffer");
        reveal_strlit("And");
        reveal_strlit("Or");
        reveal_strlit("Xor");
        assert(!is_fold_gate("Buffer"@)) by {
            assert("Buffer"@.len() == 6);
            assert("And"@.len() == 3);
            assert("Or"@.len() == 2);
            assert("Xor"@.len() == 3);
        }
    } else {
        let mid = w / 2;
        let low = bits_between(input, st.locals, 0, mid)->0;
        let high = bits_between(input, st.locals, mid, w)->0;
        lemma_cut_bits(input, st.locals, 0, mid, env);
        lemma_cut_bits(input, st.locals, mid, w, env);
        let (st1, r1) = reduce_half(st, low, gate, w)->0;
        let (st2, r2) = reduce_half(st1, high, gate, w)->0;
        assert(emit_binary(st2, r1, r2, out, gate) == Some(done));
        lemma_units_width(high, st1.locals);
        lemma_units_width(low, st.locals);
        lemma_half_shape(st, low, gate, w);
        lemma_half_shape(st1, high, gate, w);
        lemma_units_width(r1, st2.locals);
        lemma_binary_once(st2, r1, r2, out, gate);
        let a = bit_of(r1, st2.locals, 0)->0;
        let b = bit_of(r2, st2.locals, 0)->0;
        let c = bit_of(out, st2.locals, 0)->0;
        let made = binary_gate(gate, gen_name(st2.counter), a, b, c);
        assert(done.instances == st2.instances.push(made));
        assert(done.instances[st2.instances.len() as int] == made);
        assert(holds(made, env));
        assert(made.inputs[0].local[0] == a);
        assert(made.inputs[1].local[0] == b);
        assert(made.outputs[0].local[0] == c);
        assert(satisfied(st2.instances, st1.instances.len() as int, st2.instances.len() as int, env)) by {
            assert forall|k: int| st1.instances.len() <= k < st2.instances.len() implies holds(
                #[trigger] st2.instances[k],
                env,
            ) by {
                assert(done.instances[k] == st2.instances[k]);
            }
        }
        lemma_reduce_half(st1, high, gate, w, env);
        assert(satisfied(st1.instances, st.instances.len() as int, st1.instances.len() as int, env)) by {
            assert forall|k: int| st.instances.len() <= k < st1.instances.len() implies holds(
                #[trigger] st1.instances[k],
                env,
            ) by {
                assert(st2.instances[k] == st1.instances[k]);
                assert(done.instances[k] == st2.instances[k]);
            }
        }
        lemma_reduce_half(st, low, gate, w, env);
        lemma_unit_bit(r1, st2.locals, 0, env);
        lemma_unit_bit(r2, st2.locals, 0, env);
        assert forall|i: nat| i < mid implies bit_value(low, st.locals, 0 + i, env)
            == #[trigger] bit_value(input, st.locals, 0 + i, env) by {
            lemma_unit_bit(low, st.locals, i as int, env);
        }
        lemma_fold_same(gate, low, st.locals, 0, input, st.locals, 0, mid, env);
        assert forall|i: nat| i < w - mid implies bit_value(high, st1.locals, 0 + i, env)
            == #[trigger] bit_value(input, st.locals, mid + i, env) by {
            lemma_unit_bit(high, st1.locals, i as int, env);
        }
        lemma_fold_same(gate, high, st1.locals, 0, input, st.locals, mid, (w - mid) as nat, env);
        lemma_fold_split(gate, input, st.locals, env, 0, mid, w);
        assert forall|k: int| 0 <= k < st.instances.len() implies #[trigger] done.instances[k]
            == st.instances[k] by {
            assert(st1.instances[k] == st.instances[k]);
            assert(st2.instances[k] == st1.instances[k]);
        }
    }
}

/// What the reduction of a half leaves in place: the instances before it,
/// and a result of one one-bit part.
pub proof fn lemma_half_shape(st: Lowering, half: Seq<WirePartView>, gate: Seq<char>, bound: nat)
    requires
        units(half),
        1 <= half.len() <= usize::MAX,
        reduce_half(st, half, gate, bound) is Some,
    ensures
        extends(st, half_state(st, half, gate, bound)),
        units(half_bus(st, half, gate, bound)),
        half_bus(st, half, gate, bound).len() == 1,
    decreases bound, 0nat,
{
    lemma_units_width(half, st.locals);
    if half.len() != 1 {
        let (made, wire) = create_bus(st, 1)->0;
        lemma_units_width(half, made.locals);
        assert(unit_part(wire[0]));
        lemma_reduce_shape(made, half, wire, gate);
    }
}

/// A reduction only appends instances.
pub proof fn lemma_reduce_shape(
    st: Lowering,
    input: Seq<WirePartView>,
    out: Seq<WirePartView>,
    gate: Seq<char>,
)
    requires
        reduce(st, input, out, gate) is Some,
    ensures
        extends(st, reduce(st, input, out, gate)->0),
    decreases crate::assignment::width_or_zero(input, st.locals), 1nat,
{
    let done = reduce(st, input, out, gate)->0;
    let w = bus_width(input, st.locals)->0;
    if w == 1 {
        lemma_unary_once(st, input, out, "Buffer"@);
    } else {
        let mid = w / 2;
        let low = bits_between(input, st.locals, 0, mid)->0;
        let high = bits_between(input, st.locals, mid, w)->0;
        let env = Map::<(Seq<char>, nat), bool>::empty();
        lemma_cut_bits(input, st.locals, 0, mid, env);
        lemma_cut_bits(input, st.locals, mid, w, env);
        let (st1, r1) = reduce_half(st, low, gate, w)->0;
        let (st2, r2) = reduce_half(st1, high, gate, w)->0;
        lemma_half_shape(st, low, gate, w);
        lemma_half_shape(st1, high, gate, w);
        lemma_units_width(r1, st2.locals);
        lemma_binary_once(st2, r1, r2, out, gate);
        assert forall|k: int| 0 <= k < st.instances.len() implies #[trigger] done.instances[k]
            == st.instances[k] by {
            assert(st1.instances[k] == st.instances[k]);
            assert(st2.instances[k] == st1.instances[k]);
        }
    }
}

/// The three reductions of a bus.
pub open spec fn reduction_of(gate: Seq<char>, bus: Seq<WirePartView>) -> OperationView {
    if gate == "And"@ {
        OperationView::AndReduce(Box::new(OperationView::Wire(bus)))
    } else if gate == "Or"@ {
        OperationView::OrReduce(Box::new(OperationView::Wire(bus)))
    } else {
        OperationView::XorReduce(Box::new(OperationView::Wire(bus)))
    }
}

/// An assignment `out = &x;`, `out = |x;` or `out = ^x;` lowers to gates
/// that give bit 0 of `out` the fold of the operation over all bits of `x`:
/// this holds in every assignment of values to wire bits that satisfies the
/// gates appended for it.
pub proof fn lemma_reduction_semantics(
    st: Lowering,
    gate: Seq<char>,
    x: Seq<WirePartView>,
    out: Seq<WirePartView>,
    env: Map<(Seq<char>, nat), bool>,
)
    requires
        is_fold_gate(gate),
        resolve(st, reduction_of(gate, x), Some(out)) is Some,
        satisfied(
            lowered_state(st, gate, x, out).instances,
            st.instances.len() as int,
            lowered_state(st, gate, x, out).instances.len() as int,
            env,
        ),
    ensures
        bus_width(x, st.locals) is Some,
        bus_width(x, st.locals)->0 >= 1,
        bit_value(out, lowered_state(st, gate, x, out).locals, 0, env) == fold_bits(
            gate,
            x,
            st.locals,
            env,
            0,
            bus_width(x, st.locals)->0,
        ),
{
    reveal_with_fuel(resolve, 3);
    reveal_strlit("And");
    reveal_strlit("Or");
    reveal_strlit("Xor");
    assert("And"@.len() == 3 && "Or"@.len() == 2 && "Xor"@.len() == 3);
    assert("And"@[0] == 'A' && "Xor"@[0] == 'X');
    let op = reduction_of(gate, x);
    assert(crate::assignment::gate_of(op) == gate);
    assert(resolve(st, OperationView::Wire(x), None) == Some((st, x)));
    assert(reduce(st, x, out, gate) is Some);
    assert(lowered_state(st, gate, x, out) == reduce(st, x, out, gate)->0);
    lemma_reduce(st, x, out, gate, env);
}

/// The state after the reduction of `x` with `gate` was lowered to `out`.
pub open spec fn lowered_state(
    st: Lowering,
    gate: Seq<char>,
    x: Seq<WirePartView>,
    out: Seq<WirePartView>,
) -> Lowering {
    match resolve(st, reduction_of(gate, x), Some(out)) {
        Some((done, _)) => done,
        None => st,
    }
}

} // verus!
