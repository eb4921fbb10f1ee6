//! Reading source text: each function reads one piece of syntax at the start
//! of a text and returns the value together with the rest of the text.

use vstd::prelude::*;
use vstd::string::*;
use crate::design::{
    lower, lowered, module_syntax_at, modules_from, read_module, read_modules, ParseError,
};
use crate::expression::{operation_at, read_operation, read_wire_assignment, wire_assignment_at};
use crate::grammar::{
    binding_at, index_at, instance_at, list_at, local_wire_at, range_at, read_index, read_instance,
    read_list, read_local_wire, read_range, read_wirebus, wire_at, wirebus_at, wirepart_at, Syntax,
};
use crate::lexical::{
    binary_number_at, chars_of, constant_at, field_name_end, hex_number_at, hex_value, in_class,
    module_name_end, nibble, number_at, read_binary_number, read_constant, read_hex_number,
    read_name, read_number, skip_ws, slice_text, span, span_end, ws_end, CharClass,
};
use crate::parsed::{Connection, Instance, Module, Operation, Wire, WireAssignment, WirePart};

verus! {

broadcast use crate::views::group_deep_view;

/// How many characters of `text` were read when `rest` is what is left.
pub open spec fn consumed(text: Seq<char>, rest: Seq<char>) -> int {
    text.len() - rest.len()
}

/// `rest` is what is left of `text` after its first characters were read.
pub open spec fn left_of(text: Seq<char>, rest: Seq<char>) -> bool {
    &&& rest.len() <= text.len()
    &&& rest == text.skip(consumed(text, rest))
}

/// What is left of `text` after its first `end` characters.
fn rest_of<'a>(text: &'a str, end: usize) -> (rest: &'a str)
    requires
        end <= text@.len(),
    ensures
        left_of(text@, rest@),
        consumed(text@, rest@) == end,
{
    let count = text.unicode_len();
    text.substring_char(end, count)
}

/// A field name as an item of a list.
impl Syntax for String {
    open spec fn at(s: Seq<char>, pos: int) -> Option<(Seq<char>, int)> {
        match field_name_end(s, pos) {
            Some(end) => Some((s.subrange(pos, end), end)),
            None => None,
        }
    }

    fn read(s: &[char], pos: usize) -> (r: Option<(Self, usize)>) {
        match read_name(s, pos, CharClass::Letter, CharClass::Word) {
            Some(end) => Some((slice_text(s, pos, end), end)),
            None => None,
        }
    }
}

/// Reads a hexadecimal constant at the start of `i`.
pub fn hex_number(i: &str) -> (r: Result<(&str, Vec<bool>), ParseError>)
    ensures
        match r {
            Ok((rest, value)) => {
                &&& left_of(i@, rest@)
                &&& hex_number_at(i@, 0) == Some((value@, consumed(i@, rest@)))
            },
            Err(e) => e == ParseError::Syntax && hex_number_at(i@, 0) is None,
        },
{
    let s = chars_of(i);
    match read_hex_number(s.as_slice(), 0) {
        Some((value, end)) => Ok((rest_of(i, end), value)),
        None => Err(ParseError::Syntax),
    }
}

/// Reads a binary constant at the start of `i`.
pub fn binary_number(i: &str) -> (r: Result<(&str, Vec<bool>), ParseError>)
    ensures
        match r {
            Ok((rest, value)) => {
                &&& left_of(i@, rest@)
                &&& binary_number_at(i@, 0) == Some((value@, consumed(i@, rest@)))
            },
            Err(e) => e == ParseError::Syntax && binary_number_at(i@, 0) is None,
        },
{
    let s = chars_of(i);
    match read_binary_number(s.as_slice(), 0) {
        Some((value, end)) => Ok((rest_of(i, end), value)),
        None => Err(ParseError::Syntax),
    }
}

/// Reads a constant at the start of `i`.
pub fn wire_constant(i: &str) -> (r: Result<(&str, Vec<bool>), ParseError>)
    ensures
        match r {
            Ok((rest, value)) => {
                &&& left_of(i@, rest@)
                &&& constant_at(i@, 0) == Some((value@, consumed(i@, rest@)))
            },
            Err(e) => e == ParseError::Syntax && constant_at(i@, 0) is None,
        },
{
    let s = chars_of(i);
    match read_constant(s.as_slice(), 0) {
        Some((value, end)) => Ok((rest_of(i, end), value)),
        None => Err(ParseError::Syntax),
    }
}

/// Reads a number at the start of `i`.
pub fn number(i: &str) -> (r: Result<(&str, usize), ParseError>)
    ensures
        match r {
            Ok((rest, value)) => {
                &&& left_of(i@, rest@)
                &&& number_at(i@, 0) == Some((value as nat, consumed(i@, rest@)))
            },
            Err(e) => e == ParseError::Syntax && number_at(i@, 0) is None,
        },
{
    let s = chars_of(i);
    match read_number(s.as_slice(), 0) {
        Some((value, end)) => Ok((rest_of(i, end), value)),
        None => Err(ParseError::Syntax),
    }
}

/// Reads a range in brackets at the start of `i`.
pub fn range(i: &str) -> (r: Result<(&str, (usize, usize)), ParseError>)
    ensures
        match r {
            Ok((rest, value)) => {
                &&& left_of(i@, rest@)
                &&& range_at(i@, 0) == Some(((value.0 as nat, value.1 as nat), consumed(i@, rest@)))
            },
            Err(e) => e == ParseError::Syntax && range_at(i@, 0) is None,
        },
{
    let s = chars_of(i);
    match read_range(s.as_slice(), 0) {
        Some((value, end)) => Ok((rest_of(i, end), value)),
        None => Err(ParseError::Syntax),
    }
}

/// Reads a width in brackets at the start of `i`.
pub fn index(i: &str) -> (r: Result<(&str, usize), ParseError>)
    ensures
        match r {
            Ok((rest, value)) => {
                &&& left_of(i@, rest@)
                &&& index_at(i@, 0) == Some((value as nat, consumed(i@, rest@)))
            },
            Err(e) => e == ParseError::Syntax && index_at(i@, 0) is None,
        },
{
    let s = chars_of(i);
    match read_index(s.as_slice(), 0) {
        Some((value, end)) => Ok((rest_of(i, end), value)),
        None => Err(ParseError::Syntax),
    }
}

/// Reads a bus part at the start of `i`.
pub fn wirepart(i: &str) -> (r: Result<(&str, WirePart), ParseError>)
    ensures
        match r {
            Ok((rest, value)) => {
                &&& left_of(i@, rest@)
                &&& wirepart_at(i@, 0) == Some((value@, consumed(i@, rest@)))
            },
            Err(e) => e == ParseError::Syntax && wirepart_at(i@, 0) is None,
        },
{
    let s = chars_of(i);
    match <WirePart as Syntax>::read(s.as_slice(), 0) {
        Some((value, end)) => Ok((rest_of(i, end), value)),
        None => Err(ParseError::Syntax),
    }
}

/// Reads a bus at the start of `i`.
pub fn wirebus(i: &str) -> (r: Result<(&str, Vec<WirePart>), ParseError>)
    ensures
        match r {
            Ok((rest, value)) => {
                &&& left_of(i@, rest@)
                &&& wirebus_at(i@, 0) == Some((value.deep_view(), consumed(i@, rest@)))
            },
            Err(e) => e == ParseError::Syntax && wirebus_at(i@, 0) is None,
        },
{
    let s = chars_of(i);
    match read_wirebus(s.as_slice(), 0) {
        Some((value, end)) => Ok((rest_of(i, end), value)),
        None => Err(ParseError::Syntax),
    }
}

/// Reads a wire declaration at the start of `i`.
pub fn wire(i: &str) -> (r: Result<(&str, Wire), ParseError>)
    ensures
        match r {
            Ok((rest, value)) => {
                &&& left_of(i@, rest@)
                &&& wire_at(i@, 0) == Some((value@, consumed(i@, rest@)))
            },
            Err(e) => e == ParseError::Syntax && wire_at(i@, 0) is None,
        },
{
    let s = chars_of(i);
    match <Wire as Syntax>::read(s.as_slice(), 0) {
        Some((value, end)) => Ok((rest_of(i, end), value)),
        None => Err(ParseError::Syntax),
    }
}

/// Reads a declaration of private wires at the start of `i`.
pub fn local_wire(i: &str) -> (r: Result<(&str, Vec<Wire>), ParseError>)
    ensures
        match r {
            Ok((rest, value)) => {
                &&& left_of(i@, rest@)
                &&& local_wire_at(i@, 0) == Some((value.deep_view(), consumed(i@, rest@)))
            },
            Err(e) => e == ParseError::Syntax && local_wire_at(i@, 0) is None,
        },
{
    let s = chars_of(i);
    match read_local_wire(s.as_slice(), 0) {
        Some((value, end)) => Ok((rest_of(i, end), value)),
        None => Err(ParseError::Syntax),
    }
}

/// Reads a port binding at the start of `i`.
pub fn io_binding(i: &str) -> (r: Result<(&str, Connection), ParseError>)
    ensures
        match r {
            Ok((rest, value)) => {
                &&& left_of(i@, rest@)
                &&& binding_at(i@, 0) == Some((value@, consumed(i@, rest@)))
            },
            Err(e) => e == ParseError::Syntax && binding_at(i@, 0) is None,
        },
{
    let s = chars_of(i);
    match <Connection as Syntax>::read(s.as_slice(), 0) {
        Some((value, end)) => Ok((rest_of(i, end), value)),
        None => Err(ParseError::Syntax),
    }
}

/// Reads an instance at the start of `i`.
pub fn instance(i: &str) -> (r: Result<(&str, Instance), ParseError>)
    ensures
        match r {
            Ok((rest, value)) => {
                &&& left_of(i@, rest@)
                &&& instance_at(i@, 0) == Some((value@, consumed(i@, rest@)))
            },
            Err(e) => e == ParseError::Syntax && instance_at(i@, 0) is None,
        },
{
    let s = chars_of(i);
    match read_instance(s.as_slice(), 0) {
        Some((value, end)) => Ok((rest_of(i, end), value)),
        None => Err(ParseError::Syntax),
    }
}

/// Reads an operation at the start of `i`.
pub fn operation(i: &str) -> (r: Result<(&str, Operation), ParseError>)
    ensures
        match r {
            Ok((rest, value)) => {
                &&& left_of(i@, rest@)
                &&& operation_at(i@, 0) == Some((value@, consumed(i@, rest@)))
            },
            Err(e) => e == ParseError::Syntax && operation_at(i@, 0) is None,
        },
{
    let s = chars_of(i);
    match read_operation(s.as_slice(), 0) {
        Some((value, end)) => Ok((rest_of(i, end), value)),
        None => Err(ParseError::Syntax),
    }
}

/// Reads an assignment at the start of `i`.
pub fn wire_assignment(i: &str) -> (r: Result<(&str, WireAssignment), ParseError>)
    ensures
        match r {
            Ok((rest, value)) => {
                &&& left_of(i@, rest@)
                &&& wire_assignment_at(i@, 0) == Some((value@, consumed(i@, rest@)))
            },
            Err(e) => e == ParseError::Syntax && wire_assignment_at(i@, 0) is None,
        },
{
    let s = chars_of(i);
    match read_wire_assignment(s.as_slice(), 0) {
        Some((value, end)) => Ok((rest_of(i, end), value)),
        None => Err(ParseError::Syntax),
    }
}

/// Reads a field name at the start of `i`: a letter, then letters, digits
/// and underscores.
pub fn field_name(i: &str) -> (r: Result<(&str, String), ParseError>)
    ensures
        match r {
            Ok((rest, name)) => {
                &&& left_of(i@, rest@)
                &&& field_name_end(i@, 0) == Some(consumed(i@, rest@))
                &&& name@ == i@.take(consumed(i@, rest@))
            },
            Err(e) => e == ParseError::Syntax && field_name_end(i@, 0) is None,
        },
{
    let s = chars_of(i);
    match read_name(s.as_slice(), 0, CharClass::Letter, CharClass::Word) {
        Some(end) => {
            let name = slice_text(s.as_slice(), 0, end);
            assert(name@ =~= i@.take(end as int));
            Ok((rest_of(i, end), name))
        },
        None => Err(ParseError::Syntax),
    }
}

/// Reads a module name at the start of `i`: an upper-case letter, then
/// letters and digits.
pub fn module_name(i: &str) -> (r: Result<(&str, String), ParseError>)
    ensures
        match r {
            Ok((rest, name)) => {
                &&& left_of(i@, rest@)
                &&& module_name_end(i@, 0) == Some(consumed(i@, rest@))
                &&& name@ == i@.take(consumed(i@, rest@))
            },
            Err(e) => e == ParseError::Syntax && module_name_end(i@, 0) is None,
        },
{
    let s = chars_of(i);
    match read_name(s.as_slice(), 0, CharClass::Upper, CharClass::AlphaNum) {
        Some(end) => {
            let name = slice_text(s.as_slice(), 0, end);
            assert(name@ =~= i@.take(end as int));
            Ok((rest_of(i, end), name))
        },
        None => Err(ParseError::Syntax),
    }
}

/// Reads one hexadecimal digit at the start of `i`: the result holds its
/// four bits, lowest first.
pub fn hex_digit(i: &str) -> (r: Result<(&str, Vec<bool>), ParseError>)
    ensures
        match r {
            Ok((rest, bits)) => {
                &&& i@.len() > 0
                &&& in_class(i@[0], CharClass::HexDigit)
                &&& rest@ == i@.skip(1)
                &&& bits@ == nibble(hex_value(i@[0]))
            },
            Err(e) => e == ParseError::Syntax && !(i@.len() > 0 && in_class(
                i@[0],
                CharClass::HexDigit,
            )),
        },
{
    let s = chars_of(i);
    if s.len() == 0 || !crate::lexical::has_class(s[0], CharClass::HexDigit) {
        return Err(ParseError::Syntax);
    }
    let v = crate::lexical::hex_digit(s[0]);
    let mut bits: Vec<bool> = Vec::new();
    bits.push(v % 2 == 1);
    bits.push((v / 2) % 2 == 1);
    bits.push((v / 4) % 2 == 1);
    bits.push((v / 8) % 2 == 1);
    assert(bits@ =~= nibble(hex_value(i@[0])));
    Ok((rest_of(i, 1), bits))
}

/// Reads white space at the start of `i`: the result holds the run of space
/// characters, and the rest starts after the comment that may follow it.
pub fn whitespace(i: &str) -> (r: Result<(&str, &str), ParseError>)
    ensures
        r matches Ok((rest, run)) && left_of(i@, rest@) && consumed(i@, rest@) == ws_end(i@, 0)
            && run@ == i@.take(span_end(i@, 0, CharClass::Space)),
{
    let s = chars_of(i);
    let spaces = span(s.as_slice(), 0, CharClass::Space);
    let end = skip_ws(s.as_slice(), 0);
    let run = i.substring_char(0, spaces);
    assert(run@ =~= i@.take(spaces as int));
    Ok((rest_of(i, end), run))
}

/// Reads a list of field names separated by `delimiter` at the start of `i`.
pub fn list<'a>(i: &'a str, delimiter: &str) -> (r: Result<(&'a str, Vec<String>), ParseError>)
    requires
        delimiter@.len() > 0,
    ensures
        r matches Ok((rest, names)) && left_of(i@, rest@) && list_at::<String>(delimiter@, i@, 0)
            == (names.deep_view(), consumed(i@, rest@)),
{
    let s = chars_of(i);
    let (names, end) = read_list::<String>(s.as_slice(), 0, delimiter);
    Ok((rest_of(i, end), names))
}

/// The segments of a dotted path: the field names at the start of `text`,
/// separated by `.`; what follows them is not looked at.
pub fn path(text: &str) -> (segments: Vec<String>)
    ensures
        segments.deep_view() == list_at::<String>("."@, text@, 0).0,
{
    proof {
        reveal_strlit(".");
    }
    let s = chars_of(text);
    let (names, _) = read_list::<String>(s.as_slice(), 0, ".");
    names
}

/// Reads a module declaration at the start of `i` and lowers its
/// assignments into it.
pub fn module(i: &str) -> (r: Result<(&str, Module), ParseError>)
    ensures
        match r {
            Ok((rest, module)) => {
                &&& left_of(i@, rest@)
                &&& module_syntax_at(i@, 0) matches Some(((declared, assignments), end))
                &&& end == consumed(i@, rest@)
                &&& lowered(declared, assignments) == Some(module@)
            },
            Err(e) => match module_syntax_at(i@, 0) {
                Some(((declared, assignments), _)) => e == ParseError::Width && lowered(
                    declared,
                    assignments,
                ) is None,
                None => e == ParseError::Syntax,
            },
        },
{
    let s = chars_of(i);
    match read_module(s.as_slice(), 0) {
        Some((declared, assignments, end)) => match lower(declared, assignments) {
            Ok(module) => Ok((rest_of(i, end), module)),
            Err(_) => Err(ParseError::Width),
        },
        None => Err(ParseError::Syntax),
    }
}

/// Reads a whole source text: module declarations up to the end of the
/// text, each with its assignments lowered. Nothing is left of the text.
pub fn modules(i: &str) -> (r: Result<(&str, Vec<Module>), ParseError>)
    ensures
        match r {
            Ok((rest, modules)) => {
                &&& rest@.len() == 0
                &&& modules_from(i@, 0, Seq::empty()) == Ok::<
                    Seq<crate::parsed::ModuleView>,
                    ParseError,
                >(modules.deep_view())
            },
            Err(e) => modules_from(i@, 0, Seq::empty()) == Err::<
                Seq<crate::parsed::ModuleView>,
                ParseError,
            >(e),
        },
{
    let s = chars_of(i);
    match read_modules(s.as_slice()) {
        Ok(modules) => {
            let count = i.unicode_len();
            Ok((rest_of(i, count), modules))
        },
        Err(e) => Err(e),
    }
}

} // verus!
