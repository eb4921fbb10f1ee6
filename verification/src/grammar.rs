//! The grammar of the source language above the lexical layer: buses,
//! wires, port bindings and lists of them.

use vstd::prelude::*;
use vstd::string::*;
use crate::lexical::{
    constant_at, expect, field_name_end, has_prefix, number_at, read_constant, read_name,
    read_number, skip_ws, slice_text, ws_end, CharClass,
};
use crate::lexical::module_name_end;
use crate::parsed::{
    Connection, ConnectionView, Instance, InstanceView, Wire, WireKind, WirePart, WirePartView,
    WireRange, WireView,
};
use crate::views::lemma_deep_view_push;

verus! {

broadcast use crate::views::group_deep_view;

/// A piece of syntax that can be read at a position of a text.
pub trait Syntax: DeepView + Sized {
    /// The value read at `pos` and the position after it, where the text
    /// has this piece of syntax there.
    spec fn at(s: Seq<char>, pos: int) -> Option<(<Self as DeepView>::V, int)>;

    /// Reads the piece of syntax at `pos`.
    fn read(s: &[char], pos: usize) -> (r: Option<(Self, usize)>)
        requires
            pos <= s@.len(),
        ensures
            r matches Some((_, end)) ==> pos < end <= s@.len(),
            match r {
                Some((value, end)) => Self::at(s@, pos as int) == Some(
                    (value.deep_view(), end as int),
                ),
                None => Self::at(s@, pos as int) is None,
            },
    ;
}

/// A list of items separated by `delim`, with white space allowed around
/// each separator and a separator allowed after the last item; the items are
/// added to `acc`. The list ends where no further item can be read.
pub open spec fn list_from<T: Syntax>(delim: Seq<char>, s: Seq<char>, pos: int, acc: Seq<
    <T as DeepView>::V,
>) -> (Seq<<T as DeepView>::V>, int)
    decreases s.len() - pos,
{
    match T::at(s, pos) {
        None => (acc, pos),
        Some((value, end)) => {
            let before = ws_end(s, end);
            let after = ws_end(s, before + delim.len());
            if has_prefix(s, before, delim) && pos < after <= s.len() {
                list_from::<T>(delim, s, after, acc.push(value))
            } else {
                (acc.push(value), end)
            }
        },
    }
}

/// A list of items separated by `delim`.
pub open spec fn list_at<T: Syntax>(delim: Seq<char>, s: Seq<char>, pos: int) -> (
    Seq<<T as DeepView>::V>,
    int,
) {
    list_from::<T>(delim, s, pos, Seq::empty())
}

/// Reads a list of items separated by `delim`.
pub fn read_list<T: Syntax>(s: &[char], pos: usize, delim: &str) -> (r: (Vec<T>, usize))
    requires
        pos <= s@.len(),
        delim@.len() > 0,
    ensures
        (r.0.deep_view(), r.1 as int) == list_at::<T>(delim@, s@, pos as int),
        pos <= r.1 <= s@.len(),
{
    let mut items: Vec<T> = Vec::new();
    let mut at = pos;
    assert(items.deep_view() =~= Seq::empty());
    loop
        invariant
            pos <= at <= s@.len(),
            delim@.len() > 0,
            list_at::<T>(delim@, s@, pos as int) == list_from::<T>(
                delim@,
                s@,
                at as int,
                items.deep_view(),
            ),
        decreases s@.len() - at,
    {
        let (value, end) = match T::read(s, at) {
            Some(r) => r,
            None => {
                return (items, at);
            },
        };
        let before = skip_ws(s, end);
        let ghost old_items = items;
        items.push(value);
        proof {
            lemma_deep_view_push(old_items, items, value);
        }
        let after = match expect(s, before, delim) {
            Some(p) => skip_ws(s, p),
            None => {
                return (items, end);
            },
        };
        at = after;
    }
}

/// A range in brackets: `[from:to]`, or `[bit]` for the single bit.
pub open spec fn range_at(s: Seq<char>, pos: int) -> Option<((nat, nat), int)> {
    if !has_prefix(s, pos, "["@) {
        None
    } else {
        match number_at(s, pos + 1) {
            None => None,
            Some((from, end)) => {
                let pair = if has_prefix(s, end, ":"@) {
                    match number_at(s, end + 1) {
                        Some((to, last)) => Some(((from, to), last)),
                        None => None,
                    }
                } else {
                    None
                };
                let (range, close) = match pair {
                    Some(both) => both,
                    None => ((from, from), end),
                };
                if has_prefix(s, close, "]"@) {
                    Some((range, close + 1))
                } else {
                    None
                }
            },
        }
    }
}

/// A width in brackets: `[width]`.
pub open spec fn index_at(s: Seq<char>, pos: int) -> Option<(nat, int)> {
    if !has_prefix(s, pos, "["@) {
        None
    } else {
        match number_at(s, pos + 1) {
            None => None,
            Some((width, end)) => if has_prefix(s, end, "]"@) {
                Some((width, end + 1))
            } else {
                None
            },
        }
    }
}

/// Reads a range in brackets.
pub fn read_range(s: &[char], pos: usize) -> (r: Option<((usize, usize), usize)>)
    requires
        pos <= s@.len(),
    ensures
        r matches Some((_, end)) ==> pos < end <= s@.len(),
        match r {
            Some(((from, to), end)) => range_at(s@, pos as int) == Some(
                ((from as nat, to as nat), end as int),
            ),
            None => range_at(s@, pos as int) is None,
        },
{
    proof {
        reveal_strlit("[");
        reveal_strlit(":");
        reveal_strlit("]");
    }
    let open = match expect(s, pos, "[") {
        Some(p) => p,
        None => {
            return None;
        },
    };
    let (from, end) = match read_number(s, open) {
        Some(r) => r,
        None => {
            return None;
        },
    };
    let pair = match expect(s, end, ":") {
        Some(p) => match read_number(s, p) {
            Some((to, last)) => Some(((from, to), last)),
            None => None,
        },
        None => None,
    };
    let (range, close) = match pair {
        Some(both) => both,
        None => ((from, from), end),
    };
    match expect(s, close, "]") {
        Some(p) => Some((range, p)),
        None => None,
    }
}

/// Reads a width in brackets.
pub fn read_index(s: &[char], pos: usize) -> (r: Option<(usize, usize)>)
    requires
        pos <= s@.len(),
    ensures
        r matches Some((_, end)) ==> pos < end <= s@.len(),
        match r {
            Some((width, end)) => index_at(s@, pos as int) == Some((width as nat, end as int)),
            None => index_at(s@, pos as int) is None,
        },
{
    proof {
        reveal_strlit("[");
        reveal_strlit("]");
    }
    let open = match expect(s, pos, "[") {
        Some(p) => p,
        None => {
            return None;
        },
    };
    let (width, end) = match read_number(s, open) {
        Some(r) => r,
        None => {
            return None;
        },
    };
    match expect(s, end, "]") {
        Some(p) => Some((width, p)),
        None => None,
    }
}

/// A bus part: a field name with a range, a field name alone for the whole
/// wire, or a constant.
pub open spec fn wirepart_at(s: Seq<char>, pos: int) -> Option<(WirePartView, int)> {
    match field_name_end(s, pos) {
        Some(end) => {
            let name = s.subrange(pos, end);
            match range_at(s, end) {
                Some(((from, to), after)) => Some(
                    (
                        WirePartView::Local {
                            name,
                            range: WireRange::Ranged { from: from as usize, to: to as usize },
                        },
                        after,
                    ),
                ),
                None => Some((WirePartView::Local { name, range: WireRange::Total }, end)),
            }
        },
        None => match constant_at(s, pos) {
            Some((values, end)) => Some((WirePartView::Constant(values), end)),
            None => None,
        },
    }
}

impl Syntax for WirePart {
    open spec fn at(s: Seq<char>, pos: int) -> Option<(WirePartView, int)> {
        wirepart_at(s, pos)
    }

    fn read(s: &[char], pos: usize) -> (r: Option<(Self, usize)>) {
        match read_name(s, pos, CharClass::Letter, CharClass::Word) {
            Some(end) => {
                let name = slice_text(s, pos, end);
                match read_range(s, end) {
                    Some(((from, to), after)) => Some(
                        (WirePart::ranged(name.as_str(), from, to), after),
                    ),
                    None => Some((WirePart::total(name.as_str()), end)),
                }
            },
            None => match read_constant(s, pos) {
                Some((values, end)) => Some((WirePart::constant(values), end)),
                None => None,
            },
        }
    }
}

/// A repetition count: a number and `*`, with white space allowed around
/// the `*`.
pub open spec fn repeat_at(s: Seq<char>, pos: int) -> Option<(nat, int)> {
    match number_at(s, pos) {
        None => None,
        Some((count, end)) => {
            let star = ws_end(s, end);
            if has_prefix(s, star, "*"@) {
                Some((count, ws_end(s, star + 1)))
            } else {
                None
            }
        },
    }
}

/// Reads a repetition count.
pub fn read_repeat(s: &[char], pos: usize) -> (r: Option<(usize, usize)>)
    requires
        pos <= s@.len(),
    ensures
        r matches Some((_, end)) ==> pos < end <= s@.len(),
        match r {
            Some((count, end)) => repeat_at(s@, pos as int) == Some((count as nat, end as int)),
            None => repeat_at(s@, pos as int) is None,
        },
{
    proof {
        reveal_strlit("*");
    }
    let (count, end) = match read_number(s, pos) {
        Some(r) => r,
        None => {
            return None;
        },
    };
    let star = skip_ws(s, end);
    match expect(s, star, "*") {
        Some(p) => Some((count, skip_ws(s, p))),
        None => None,
    }
}

/// `bus` repeated: `count` items that run through `bus` again and again.
pub open spec fn cycle(bus: Seq<WirePartView>, count: nat) -> Seq<WirePartView> {
    Seq::new(count, |i: int| bus[i % (bus.len() as int)])
}

/// A bus part with a repetition count in front, which may be left out: the
/// part as often as the count says.
pub open spec fn repeated_part_at(s: Seq<char>, pos: int) -> Option<(Seq<WirePartView>, int)> {
    let (count, start) = match repeat_at(s, pos) {
        Some((count, start)) => (count, start),
        None => (1nat, pos),
    };
    match wirepart_at(s, start) {
        Some((part, end)) => Some((cycle(seq![part], count), end)),
        None => None,
    }
}

/// `count` items that run through `bus` again and again.
pub fn repeat_bus(bus: &Vec<WirePart>, count: usize) -> (r: Vec<WirePart>)
    requires
        bus@.len() > 0 || count == 0,
    ensures
        r.deep_view() == cycle(bus.deep_view(), count as nat),
{
    let mut out: Vec<WirePart> = Vec::new();
    let mut k: usize = 0;
    let mut next: usize = 0;
    assert(out.deep_view() =~= cycle(bus.deep_view(), 0));
    if count == 0 {
        return out;
    }
    while k < count
        invariant
            k <= count,
            bus@.len() > 0,
            next < bus.len(),
            next == (k as int) % (bus@.len() as int),
            out.deep_view() == cycle(bus.deep_view(), k as nat),
        decreases count - k,
    {
        let ghost before = out;
        let part = bus[next].clone();
        out.push(part);
        proof {
            lemma_deep_view_push(before, out, part);
            assert(out.deep_view() =~= cycle(bus.deep_view(), (k + 1) as nat));
            lemma_next_index(k as int, bus@.len() as int);
        }
        k += 1;
        next = if next + 1 == bus.len() {
            0
        } else {
            next + 1
        };
    }
    out
}

/// Stepping through the indices of a cycle.
pub proof fn lemma_next_index(k: int, n: int)
    requires
        0 <= k,
        0 < n,
    ensures
        (k + 1) % n == (if k % n + 1 == n {
            0
        } else {
            k % n + 1
        }),
{
    vstd::arithmetic::div_mod::lemma_fundamental_div_mod(k, n);
    vstd::arithmetic::div_mod::lemma_fundamental_div_mod(k + 1, n);
    let q = k / n;
    let r = k % n;
    if r + 1 == n {
        assert(k + 1 == (q + 1) * n) by (nonlinear_arith)
            requires
                k == n * q + r,
                r + 1 == n,
        ;
        vstd::arithmetic::div_mod::lemma_mod_multiples_basic(q + 1, n);
    } else {
        assert(k + 1 == q * n + (r + 1)) by (nonlinear_arith)
            requires
                k == n * q + r,
        ;
        vstd::arithmetic::div_mod::lemma_fundamental_div_mod_converse(k + 1, n, q, r + 1);
    }
}

impl Syntax for Vec<WirePart> {
    open spec fn at(s: Seq<char>, pos: int) -> Option<(Seq<WirePartView>, int)> {
        repeated_part_at(s, pos)
    }

    fn read(s: &[char], pos: usize) -> (r: Option<(Self, usize)>) {
        let (count, start) = match read_repeat(s, pos) {
            Some((count, start)) => (count, start),
            None => (1, pos),
        };
        match WirePart::read(s, start) {
            Some((part, end)) => {
                let mut one: Vec<WirePart> = Vec::new();
                one.push(part);
                assert(one.deep_view() =~= seq![part@]);
                Some((repeat_bus(&one, count), end))
            },
            None => None,
        }
    }
}

/// A bus: one repeated part, or a list of repeated parts in braces, with a
/// repetition count for the whole in front, which may be left out.
pub open spec fn wirebus_at(s: Seq<char>, pos: int) -> Option<(Seq<WirePartView>, int)> {
    let (count, start) = match repeat_at(s, pos) {
        Some((count, start)) => (count, start),
        None => (1nat, pos),
    };
    let braces = if has_prefix(s, start, "{"@) {
        let (items, end) = list_at::<Vec<WirePart>>(","@, s, start + 1);
        if has_prefix(s, end, "}"@) {
            Some((items.flatten(), end + 1))
        } else {
            None
        }
    } else {
        None
    };
    let inner = match braces {
        Some(found) => Some(found),
        None => repeated_part_at(s, start),
    };
    match inner {
        Some((bus, end)) => if count * bus.len() <= usize::MAX {
            Some((cycle(bus, count * bus.len()), end))
        } else {
            None
        },
        None => None,
    }
}

/// The parts of all buses of `buses`, in order.
pub fn flatten(buses: Vec<Vec<WirePart>>) -> (r: Vec<WirePart>)
    ensures
        r.deep_view() == buses.deep_view().flatten(),
{
    let ghost all = buses.deep_view();
    let mut out: Vec<WirePart> = Vec::new();
    let mut i: usize = 0;
    assert(out.deep_view() =~= all.take(0).flatten());
    while i < buses.len()
        invariant
            i <= buses.len(),
            all == buses.deep_view(),
            out.deep_view() == all.take(i as int).flatten(),
        decreases buses.len() - i,
    {
        let ghost start = out.deep_view();
        let ghost row = all[i as int];
        let mut k: usize = 0;
        assert(row == buses@[i as int].deep_view());
        while k < buses[i].len()
            invariant
                i < buses.len(),
                k <= buses@[i as int]@.len(),
                row == buses@[i as int].deep_view(),
                out.deep_view() == start + row.take(k as int),
            decreases buses@[i as int]@.len() - k,
        {
            let ghost before = out;
            let part = buses[i][k].clone();
            out.push(part);
            proof {
                lemma_deep_view_push(before, out, part);
                assert(out.deep_view() =~= start + row.take(k + 1));
            }
            k += 1;
        }
        proof {
            assert(row.take(row.len() as int) =~= row);
            assert(all.take(i + 1) =~= all.take(i as int).push(row));
            all.take(i as int).lemma_flatten_push(row);
        }
        i += 1;
    }
    assert(all.take(buses.len() as int) =~= all);
    out
}

/// Reads a bus.
pub fn read_wirebus(s: &[char], pos: usize) -> (r: Option<(Vec<WirePart>, usize)>)
    requires
        pos <= s@.len(),
    ensures
        r matches Some((_, end)) ==> pos < end <= s@.len(),
        match r {
            Some((bus, end)) => wirebus_at(s@, pos as int) == Some((bus.deep_view(), end as int)),
            None => wirebus_at(s@, pos as int) is None,
        },
{
    proof {
        reveal_strlit("{");
        reveal_strlit("}");
        reveal_strlit(",");
    }
    let (count, start) = match read_repeat(s, pos) {
        Some((count, start)) => (count, start),
        None => (1, pos),
    };
    let braces = match expect(s, start, "{") {
        Some(open) => {
            let (items, end) = read_list::<Vec<WirePart>>(s, open, ",");
            match expect(s, end, "}") {
                Some(close) => Some((flatten(items), close)),
                None => None,
            }
        },
        None => None,
    };
    let inner = match braces {
        Some(found) => Some(found),
        None => <Vec<WirePart> as Syntax>::read(s, start),
    };
    match inner {
        Some((bus, end)) => match count.checked_mul(bus.len()) {
            Some(total) => {
                assert(bus@.len() == 0 ==> total == 0) by (nonlinear_arith)
                    requires
                        total == count * bus@.len(),
                ;
                Some((repeat_bus(&bus, total), end))
            },
            None => None,
        },
        None => None,
    }
}

/// A port binding: `port=bus`, with white space allowed around the `=`, or
/// `port` alone, which binds the port to the wire of the same name.
pub open spec fn binding_at(s: Seq<char>, pos: int) -> Option<(ConnectionView, int)> {
    match field_name_end(s, pos) {
        None => None,
        Some(end) => {
            let name = s.subrange(pos, end);
            let equals = ws_end(s, end);
            let full = if has_prefix(s, equals, "="@) {
                match wirebus_at(s, ws_end(s, equals + 1)) {
                    Some((bus, last)) => Some((ConnectionView { local: bus, module: name }, last)),
                    None => None,
                }
            } else {
                None
            };
            match full {
                Some(found) => Some(found),
                None => Some(
                    (
                        ConnectionView {
                            local: seq![WirePartView::Local { name, range: WireRange::Total }],
                            module: name,
                        },
                        end,
                    ),
                ),
            }
        },
    }
}

impl Syntax for Connection {
    open spec fn at(s: Seq<char>, pos: int) -> Option<(ConnectionView, int)> {
        binding_at(s, pos)
    }

    fn read(s: &[char], pos: usize) -> (r: Option<(Self, usize)>) {
        proof {
            reveal_strlit("=");
        }
        let end = match read_name(s, pos, CharClass::Letter, CharClass::Word) {
            Some(end) => end,
            None => {
                return None;
            },
        };
        let name = slice_text(s, pos, end);
        let equals = skip_ws(s, end);
        let full = match expect(s, equals, "=") {
            Some(after) => match read_wirebus(s, skip_ws(s, after)) {
                Some((bus, last)) => Some((bus, last)),
                None => None,
            },
            None => None,
        };
        match full {
            Some((bus, last)) => Some((Connection { local: bus, module: name }, last)),
            None => {
                let mut bus: Vec<WirePart> = Vec::new();
                bus.push(WirePart::total(name.as_str()));
                assert(bus.deep_view() =~= seq![
                    WirePartView::Local { name: name@, range: WireRange::Total },
                ]);
                Some((Connection { local: bus, module: name }, end))
            },
        }
    }
}

/// A wire declaration: a field name, and its width in brackets where it is
/// not 1. The wire is private.
pub open spec fn wire_at(s: Seq<char>, pos: int) -> Option<(WireView, int)> {
    match field_name_end(s, pos) {
        None => None,
        Some(end) => {
            let name = s.subrange(pos, end);
            match index_at(s, end) {
                Some((width, after)) => Some(
                    (WireView { name, width, kind: WireKind::Private }, after),
                ),
                None => Some((WireView { name, width: 1, kind: WireKind::Private }, end)),
            }
        },
    }
}

impl Syntax for Wire {
    open spec fn at(s: Seq<char>, pos: int) -> Option<(WireView, int)> {
        wire_at(s, pos)
    }

    fn read(s: &[char], pos: usize) -> (r: Option<(Self, usize)>) {
        let end = match read_name(s, pos, CharClass::Letter, CharClass::Word) {
            Some(end) => end,
            None => {
                return None;
            },
        };
        let name = slice_text(s, pos, end);
        match read_index(s, end) {
            Some((width, after)) => Some((Wire { name, width, kind: WireKind::Private }, after)),
            None => Some((Wire { name, width: 1, kind: WireKind::Private }, end)),
        }
    }
}

/// A declaration of private wires: `wire`, a list of wires separated by
/// commas, and `;`.
pub open spec fn local_wire_at(s: Seq<char>, pos: int) -> Option<(Seq<WireView>, int)> {
    if has_prefix(s, pos, "wire"@) {
        let (wires, end) = list_at::<Wire>(","@, s, ws_end(s, pos + 4));
        if has_prefix(s, end, ";"@) {
            Some((wires, end + 1))
        } else {
            None
        }
    } else {
        None
    }
}

/// Reads a declaration of private wires.
pub fn read_local_wire(s: &[char], pos: usize) -> (r: Option<(Vec<Wire>, usize)>)
    requires
        pos <= s@.len(),
    ensures
        r matches Some((_, end)) ==> pos < end <= s@.len(),
        match r {
            Some((wires, end)) => local_wire_at(s@, pos as int) == Some(
                (wires.deep_view(), end as int),
            ),
            None => local_wire_at(s@, pos as int) is None,
        },
{
    proof {
        reveal_strlit("wire");
        reveal_strlit(",");
        reveal_strlit(";");
    }
    let after = match expect(s, pos, "wire") {
        Some(after) => after,
        None => {
            return None;
        },
    };
    let (wires, end) = read_list::<Wire>(s, skip_ws(s, after), ",");
    match expect(s, end, ";") {
        Some(last) => Some((wires, last)),
        None => None,
    }
}

/// A list of port bindings in parentheses.
pub open spec fn bindings_at(s: Seq<char>, pos: int) -> Option<(Seq<ConnectionView>, int)> {
    if has_prefix(s, pos, "("@) {
        let (items, end) = list_at::<Connection>(","@, s, pos + 1);
        if has_prefix(s, end, ")"@) {
            Some((items, end + 1))
        } else {
            None
        }
    } else {
        None
    }
}

/// Reads a list of port bindings in parentheses.
pub fn read_bindings(s: &[char], pos: usize) -> (r: Option<(Vec<Connection>, usize)>)
    requires
        pos <= s@.len(),
    ensures
        r matches Some((_, end)) ==> pos < end <= s@.len(),
        match r {
            Some((items, end)) => bindings_at(s@, pos as int) == Some(
                (items.deep_view(), end as int),
            ),
            None => bindings_at(s@, pos as int) is None,
        },
{
    proof {
        reveal_strlit("(");
        reveal_strlit(")");
        reveal_strlit(",");
    }
    let open = match expect(s, pos, "(") {
        Some(open) => open,
        None => {
            return None;
        },
    };
    let (items, end) = read_list::<Connection>(s, open, ",");
    match expect(s, end, ")") {
        Some(last) => Some((items, last)),
        None => None,
    }
}

/// An instance: the module name, the instance name, the input bindings,
/// `->`, the output bindings and `;`, with white space allowed before each
/// of them but the `;`.
pub open spec fn instance_at(s: Seq<char>, pos: int) -> Option<(InstanceView, int)> {
    let start = ws_end(s, pos);
    match module_name_end(s, start) {
        None => None,
        Some(module_end) => {
            let name_start = ws_end(s, module_end);
            match field_name_end(s, name_start) {
                None => None,
                Some(name_end) => match bindings_at(s, ws_end(s, name_end)) {
                    None => None,
                    Some((inputs, inputs_end)) => {
                        let arrow = ws_end(s, inputs_end);
                        if has_prefix(s, arrow, "->"@) {
                            match bindings_at(s, ws_end(s, arrow + 2)) {
                                None => None,
                                Some((outputs, outputs_end)) => if has_prefix(
                                    s,
                                    outputs_end,
                                    ";"@,
                                ) {
                                    Some(
                                        (
                                            InstanceView {
                                                module: s.subrange(start, module_end),
                                                name: s.subrange(name_start, name_end),
                                                inputs,
                                                outputs,
                                            },
                                            outputs_end + 1,
                                        ),
                                    )
                                } else {
                                    None
                                },
                            }
                        } else {
                            None
                        }
                    },
                },
            }
        },
    }
}

/// Reads an instance.
pub fn read_instance(s: &[char], pos: usize) -> (r: Option<(Instance, usize)>)
    requires
        pos <= s@.len(),
    ensures
        r matches Some((_, end)) ==> pos < end <= s@.len(),
        match r {
            Some((instance, end)) => instance_at(s@, pos as int) == Some((instance@, end as int)),
            None => instance_at(s@, pos as int) is None,
        },
{
    proof {
        reveal_strlit("->");
        reveal_strlit(";");
    }
    let start = skip_ws(s, pos);
    let module_end = match read_name(s, start, CharClass::Upper, CharClass::AlphaNum) {
        Some(end) => end,
        None => {
            return None;
        },
    };
    let name_start = skip_ws(s, module_end);
    let name_end = match read_name(s, name_start, CharClass::Letter, CharClass::Word) {
        Some(end) => end,
        None => {
            return None;
        },
    };
    let (inputs, inputs_end) = match read_bindings(s, skip_ws(s, name_end)) {
        Some(r) => r,
        None => {
            return None;
        },
    };
    let arrow = skip_ws(s, inputs_end);
    let after = match expect(s, arrow, "->") {
        Some(after) => after,
        None => {
            return None;
        },
    };
    let (outputs, outputs_end) = match read_bindings(s, skip_ws(s, after)) {
        Some(r) => r,
        None => {
            return None;
        },
    };
    match expect(s, outputs_end, ";") {
        Some(last) => Some(
            (
                Instance {
                    module: slice_text(s, start, module_end),
                    name: slice_text(s, name_start, name_end),
                    inputs,
                    outputs,
                },
                last,
            ),
        ),
        None => None,
    }
}

} // verus!
