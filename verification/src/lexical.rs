//! The lexical layer of the source language: character classes, names,
//! numbers, constants and white space, over a text held as characters.

use vstd::prelude::*;
use vstd::string::*;
use crate::text::push_char;

verus! {

/// The classes of characters that the grammar speaks of.
#[derive(PartialEq, Eq, Debug, Copy, Clone, Structural)]
pub enum CharClass {
    /// Space, tab, line feed, form feed, carriage return.
    Space,
    /// An ASCII letter.
    Letter,
    /// An ASCII upper-case letter.
    Upper,
    /// An ASCII letter or digit.
    AlphaNum,
    /// An ASCII letter or digit, or an underscore.
    Word,
    /// A decimal digit.
    Digit,
    /// `0` or `1`.
    Bit,
    /// A hexadecimal digit, in either case.
    HexDigit,
}

pub open spec fn is_lower(c: char) -> bool {
    'a' <= c <= 'z'
}

pub open spec fn is_upper(c: char) -> bool {
    'A' <= c <= 'Z'
}

pub open spec fn is_digit(c: char) -> bool {
    '0' <= c <= '9'
}

/// Whether `c` belongs to `class`.
pub open spec fn in_class(c: char, class: CharClass) -> bool {
    match class {
        CharClass::Space => c == ' ' || c == '\t' || c == '\n' || c == '\x0C' || c == '\r',
        CharClass::Letter => is_lower(c) || is_upper(c),
        CharClass::Upper => is_upper(c),
        CharClass::AlphaNum => is_lower(c) || is_upper(c) || is_digit(c),
        CharClass::Word => is_lower(c) || is_upper(c) || is_digit(c) || c == '_',
        CharClass::Digit => is_digit(c),
        CharClass::Bit => c == '0' || c == '1',
        CharClass::HexDigit => is_digit(c) || 'a' <= c <= 'f' || 'A' <= c <= 'F',
    }
}

/// Whether `c` belongs to `class`.
pub fn has_class(c: char, class: CharClass) -> (r: bool)
    ensures
        r == in_class(c, class),
{
    let lower = 'a' <= c && c <= 'z';
    let upper = 'A' <= c && c <= 'Z';
    let digit = '0' <= c && c <= '9';
    match class {
        CharClass::Space => c == ' ' || c == '\t' || c == '\n' || c == '\x0C' || c == '\r',
        CharClass::Letter => lower || upper,
        CharClass::Upper => upper,
        CharClass::AlphaNum => lower || upper || digit,
        CharClass::Word => lower || upper || digit || c == '_',
        CharClass::Digit => digit,
        CharClass::Bit => c == '0' || c == '1',
        CharClass::HexDigit => digit || ('a' <= c && c <= 'f') || ('A' <= c && c <= 'F'),
    }
}

/// The end of the longest run of characters of `class` that starts at `pos`.
pub open spec fn span_end(s: Seq<char>, pos: int, class: CharClass) -> int
    decreases s.len() - pos,
{
    if 0 <= pos < s.len() && in_class(s[pos], class) {
        span_end(s, pos + 1, class)
    } else {
        pos
    }
}

/// A run ends inside the text, at or after its start.
pub proof fn lemma_span_end(s: Seq<char>, pos: int, class: CharClass)
    requires
        0 <= pos <= s.len(),
    ensures
        pos <= span_end(s, pos, class) <= s.len(),
        forall|k: int| pos <= k < span_end(s, pos, class) ==> in_class(#[trigger] s[k], class),
        span_end(s, pos, class) < s.len() ==> !in_class(s[span_end(s, pos, class)], class),
    decreases s.len() - pos,
{
    if pos < s.len() && in_class(s[pos], class) {
        lemma_span_end(s, pos + 1, class);
    }
}

/// The end of the longest run of characters of `class` that starts at `pos`.
pub fn span(s: &[char], pos: usize, class: CharClass) -> (end: usize)
    requires
        pos <= s@.len(),
    ensures
        end == span_end(s@, pos as int, class),
        pos <= end <= s@.len(),
{
    let mut end = pos;
    while end < s.len() && has_class(s[end], class)
        invariant
            pos <= end <= s@.len(),
            span_end(s@, pos as int, class) == span_end(s@, end as int, class),
        decreases s@.len() - end,
    {
        end += 1;
    }
    end
}

/// Whether the text continues at `pos` with the characters of `tag`.
pub open spec fn has_prefix(s: Seq<char>, pos: int, tag: Seq<char>) -> bool {
    &&& 0 <= pos
    &&& pos + tag.len() <= s.len()
    &&& s.subrange(pos, pos + tag.len()) == tag
}

/// Whether the text continues at `pos` with `tag`; the result is then the
/// position after it.
pub fn expect(s: &[char], pos: usize, tag: &str) -> (r: Option<usize>)
    requires
        pos <= s@.len(),
    ensures
        match r {
            Some(end) => has_prefix(s@, pos as int, tag@) && end == pos + tag@.len(),
            None => !has_prefix(s@, pos as int, tag@),
        },
{
    let count = tag.unicode_len();
    if count > s.len() - pos {
        return None;
    }
    let mut k: usize = 0;
    while k < count
        invariant
            k <= count,
            count == tag@.len(),
            pos + count <= s.len(),
            forall|j: int| 0 <= j < k ==> s@[pos + j] == tag@[j],
        decreases count - k,
    {
        if s[pos + k] != tag.get_char(k) {
            proof {
                if has_prefix(s@, pos as int, tag@) {
                    assert(s@.subrange(pos as int, pos + tag@.len())[k as int] == tag@[k as int]);
                }
            }
            return None;
        }
        k += 1;
    }
    assert(s@.subrange(pos as int, pos + tag@.len()) =~= tag@);
    Some(pos + count)
}

/// The characters `from..to` of the text, as a string.
pub fn slice_text(s: &[char], from: usize, to: usize) -> (r: String)
    requires
        from <= to <= s@.len(),
    ensures
        r@ == s@.subrange(from as int, to as int),
{
    let mut text = String::from_str("");
    proof {
        reveal_strlit("");
    }
    assert(text@ =~= s@.subrange(from as int, from as int));
    let mut k = from;
    while k < to
        invariant
            from <= k <= to <= s@.len(),
            text@ == s@.subrange(from as int, k as int),
        decreases to - k,
    {
        push_char(&mut text, s[k]);
        k += 1;
        assert(text@ =~= s@.subrange(from as int, k as int));
    }
    text
}

/// The position of the first line feed at or after `pos`.
pub open spec fn line_end(s: Seq<char>, pos: int) -> Option<int>
    decreases s.len() - pos,
{
    if pos < 0 || pos >= s.len() {
        None
    } else if s[pos] == '\n' {
        Some(pos)
    } else {
        line_end(s, pos + 1)
    }
}

/// The position of the first line feed at or after `pos`.
pub fn find_line_end(s: &[char], pos: usize) -> (r: Option<usize>)
    requires
        pos <= s@.len(),
    ensures
        match r {
            Some(k) => line_end(s@, pos as int) == Some(k as int) && pos <= k < s@.len(),
            None => line_end(s@, pos as int) is None,
        },
{
    let mut k = pos;
    while k < s.len()
        invariant
            pos <= k <= s@.len(),
            line_end(s@, pos as int) == line_end(s@, k as int),
        decreases s@.len() - k,
    {
        if s[k] == '\n' {
            return Some(k);
        }
        k += 1;
    }
    None
}

/// White space: a run of space characters, and then, where a comment starts
/// with `//` and a line feed follows somewhere, the comment up to that line
/// feed. The result is the position after it.
pub open spec fn ws_end(s: Seq<char>, pos: int) -> int {
    let spaces = span_end(s, pos, CharClass::Space);
    if has_prefix(s, spaces, "//"@) {
        match line_end(s, spaces + 2) {
            Some(k) => k,
            None => spaces,
        }
    } else {
        spaces
    }
}

/// Skips white space; the result is the position after it.
pub fn skip_ws(s: &[char], pos: usize) -> (end: usize)
    requires
        pos <= s@.len(),
    ensures
        end == ws_end(s@, pos as int),
        pos <= end <= s@.len(),
{
    let spaces = span(s, pos, CharClass::Space);
    proof {
        reveal_strlit("//");
    }
    match expect(s, spaces, "//") {
        Some(after) => match find_line_end(s, after) {
            Some(k) => k,
            None => spaces,
        },
        None => spaces,
    }
}

/// White space ends inside the text, at or after its start.
pub proof fn lemma_ws_end(s: Seq<char>, pos: int)
    requires
        0 <= pos <= s.len(),
    ensures
        pos <= ws_end(s, pos) <= s.len(),
{
    lemma_span_end(s, pos, CharClass::Space);
    let spaces = span_end(s, pos, CharClass::Space);
    reveal_strlit("//");
    if has_prefix(s, spaces, "//"@) {
        lemma_line_end(s, spaces + 2);
    }
}

/// A line end lies inside the text, at or after the start of the search.
pub proof fn lemma_line_end(s: Seq<char>, pos: int)
    ensures
        match line_end(s, pos) {
            Some(k) => pos <= k < s.len() && 0 <= pos,
            None => true,
        },
    decreases s.len() - pos,
{
    if 0 <= pos < s.len() && s[pos] != '\n' {
        lemma_line_end(s, pos + 1);
    }
}

/// A name that starts with a character of `first` and goes on with
/// characters of `rest`: the result is the position after it.
pub open spec fn name_end(s: Seq<char>, pos: int, first: CharClass, rest: CharClass) -> Option<int> {
    if 0 <= pos < s.len() && in_class(s[pos], first) {
        Some(span_end(s, pos + 1, rest))
    } else {
        None
    }
}

/// The end of a field name: a letter, then letters, digits and underscores.
pub open spec fn field_name_end(s: Seq<char>, pos: int) -> Option<int> {
    name_end(s, pos, CharClass::Letter, CharClass::Word)
}

/// The end of a module name: an upper-case letter, then letters and digits.
pub open spec fn module_name_end(s: Seq<char>, pos: int) -> Option<int> {
    name_end(s, pos, CharClass::Upper, CharClass::AlphaNum)
}

/// Reads a name; the result is the position after it.
pub fn read_name(s: &[char], pos: usize, first: CharClass, rest: CharClass) -> (r: Option<usize>)
    requires
        pos <= s@.len(),
    ensures
        r matches Some(end) ==> pos < end <= s@.len(),
        match r {
            Some(end) => name_end(s@, pos as int, first, rest) == Some(end as int),
            None => name_end(s@, pos as int, first, rest) is None,
        },
{
    if pos < s.len() && has_class(s[pos], first) {
        Some(span(s, pos + 1, rest))
    } else {
        None
    }
}

/// The value of a decimal digit.
pub open spec fn digit_value(c: char) -> nat {
    (c as nat - '0' as nat) as nat
}

/// The number that the decimal digits at `lo..hi` denote.
pub open spec fn digits_value(s: Seq<char>, lo: int, hi: int) -> nat
    decreases hi - lo,
{
    if hi <= lo {
        0
    } else {
        digits_value(s, lo, hi - 1) * 10 + digit_value(s[hi - 1])
    }
}

/// A number: one or more decimal digits whose value fits the machine word.
pub open spec fn number_at(s: Seq<char>, pos: int) -> Option<(nat, int)> {
    let end = span_end(s, pos, CharClass::Digit);
    if 0 <= pos < end && digits_value(s, pos, end) <= usize::MAX {
        Some((digits_value(s, pos, end), end))
    } else {
        None
    }
}

/// More digits never denote a smaller number.
pub proof fn lemma_digits_grow(s: Seq<char>, lo: int, mid: int, hi: int)
    requires
        lo <= mid <= hi,
    ensures
        digits_value(s, lo, mid) <= digits_value(s, lo, hi),
    decreases hi - mid,
{
    if mid < hi {
        lemma_digits_grow(s, lo, mid, hi - 1);
        assert(digits_value(s, lo, hi - 1) <= digits_value(s, lo, hi - 1) * 10) by (nonlinear_arith);
    }
}

/// Reads a number.
pub fn read_number(s: &[char], pos: usize) -> (r: Option<(usize, usize)>)
    requires
        pos <= s@.len(),
    ensures
        r matches Some((_, end)) ==> pos < end <= s@.len(),
        match r {
            Some((value, end)) => number_at(s@, pos as int) == Some((value as nat, end as int)),
            None => number_at(s@, pos as int) is None,
        },
{
    let end = span(s, pos, CharClass::Digit);
    if end == pos {
        return None;
    }
    proof {
        lemma_span_end(s@, pos as int, CharClass::Digit);
    }
    let mut value: usize = 0;
    let mut k = pos;
    while k < end
        invariant
            pos <= k <= end <= s@.len(),
            end == span_end(s@, pos as int, CharClass::Digit),
            value == digits_value(s@, pos as int, k as int),
            forall|j: int| pos <= j < end ==> in_class(#[trigger] s@[j], CharClass::Digit),
        decreases end - k,
    {
        let c = s[k];
        assert(in_class(s@[k as int], CharClass::Digit));
        let d = (c as u32 - '0' as u32) as usize;
        assert(d == digit_value(c));
        let next = match value.checked_mul(10) {
            Some(scaled) => scaled.checked_add(d),
            None => None,
        };
        match next {
            Some(v) => {
                value = v;
            },
            None => {
                proof {
                    assert(digits_value(s@, pos as int, k + 1) > usize::MAX);
                    lemma_digits_grow(s@, pos as int, k + 1, end as int);
                }
                return None;
            },
        }
        k += 1;
    }
    Some((value, end))
}

/// The value of a hexadecimal digit.
pub open spec fn hex_value(c: char) -> nat {
    if is_digit(c) {
        (c as nat - '0' as nat) as nat
    } else if 'a' <= c <= 'f' {
        (c as nat - 'a' as nat + 10) as nat
    } else {
        (c as nat - 'A' as nat + 10) as nat
    }
}

/// The four bits of a hexadecimal digit, lowest first.
pub open spec fn nibble(v: nat) -> Seq<bool> {
    seq![v % 2 == 1, (v / 2) % 2 == 1, (v / 4) % 2 == 1, (v / 8) % 2 == 1]
}

/// The bits that the hexadecimal digits at `lo..hi` denote, lowest first:
/// the last digit comes first.
pub open spec fn hex_bits(s: Seq<char>, lo: int, hi: int) -> Seq<bool>
    decreases hi - lo,
{
    if hi <= lo {
        Seq::empty()
    } else {
        nibble(hex_value(s[hi - 1])) + hex_bits(s, lo, hi - 1)
    }
}

/// A hexadecimal constant: `0x` and one or more hexadecimal digits.
pub open spec fn hex_number_at(s: Seq<char>, pos: int) -> Option<(Seq<bool>, int)> {
    if has_prefix(s, pos, "0x"@) {
        let end = span_end(s, pos + 2, CharClass::HexDigit);
        if end > pos + 2 {
            Some((hex_bits(s, pos + 2, end), end))
        } else {
            None
        }
    } else {
        None
    }
}

/// The bits that the binary digits at `lo..hi` denote, lowest first: the
/// last digit comes first.
pub open spec fn binary_bits(s: Seq<char>, lo: int, hi: int) -> Seq<bool> {
    Seq::new((hi - lo) as nat, |k: int| s[hi - 1 - k] == '1')
}

/// A binary constant: `0b`, which may be left out, and one or more binary
/// digits.
pub open spec fn binary_number_at(s: Seq<char>, pos: int) -> Option<(Seq<bool>, int)> {
    let start = if has_prefix(s, pos, "0b"@) {
        pos + 2
    } else {
        pos
    };
    let end = span_end(s, start, CharClass::Bit);
    if 0 <= start < end {
        Some((binary_bits(s, start, end), end))
    } else {
        None
    }
}

/// A constant: hexadecimal where the text allows it, else binary.
pub open spec fn constant_at(s: Seq<char>, pos: int) -> Option<(Seq<bool>, int)> {
    match hex_number_at(s, pos) {
        Some(r) => Some(r),
        None => binary_number_at(s, pos),
    }
}

/// The value of the hexadecimal digit `c`.
pub fn hex_digit(c: char) -> (v: u8)
    requires
        in_class(c, CharClass::HexDigit),
    ensures
        v == hex_value(c),
        v < 16,
{
    if '0' <= c && c <= '9' {
        (c as u32 - '0' as u32) as u8
    } else if 'a' <= c && c <= 'f' {
        (c as u32 - 'a' as u32 + 10) as u8
    } else {
        (c as u32 - 'A' as u32 + 10) as u8
    }
}

/// Reads a hexadecimal constant.
pub fn read_hex_number(s: &[char], pos: usize) -> (r: Option<(Vec<bool>, usize)>)
    requires
        pos <= s@.len(),
    ensures
        r matches Some((_, end)) ==> pos < end <= s@.len(),
        match r {
            Some((bits, end)) => hex_number_at(s@, pos as int) == Some((bits@, end as int)),
            None => hex_number_at(s@, pos as int) is None,
        },
{
    let start = match expect(s, pos, "0x") {
        Some(start) => start,
        None => {
            return None;
        },
    };
    proof {
        reveal_strlit("0x");
        lemma_span_end(s@, start as int, CharClass::HexDigit);
    }
    let end = span(s, start, CharClass::HexDigit);
    if end == start {
        return None;
    }
    let mut bits: Vec<bool> = Vec::new();
    let mut k = end;
    while k > start
        invariant
            start <= k <= end <= s@.len(),
            forall|j: int| start <= j < end ==> in_class(#[trigger] s@[j], CharClass::HexDigit),
            bits@ + hex_bits(s@, start as int, k as int) == hex_bits(s@, start as int, end as int),
        decreases k,
    {
        let ghost before = bits@;
        k -= 1;
        assert(in_class(s@[k as int], CharClass::HexDigit));
        let v = hex_digit(s[k]);
        bits.push(v % 2 == 1);
        bits.push((v / 2) % 2 == 1);
        bits.push((v / 4) % 2 == 1);
        bits.push((v / 8) % 2 == 1);
        assert(bits@ =~= before + nibble(hex_value(s@[k as int])));
        assert(bits@ + hex_bits(s@, start as int, k as int) =~= before + hex_bits(
            s@,
            start as int,
            k + 1,
        ));
    }
    assert(bits@ =~= bits@ + hex_bits(s@, start as int, start as int));
    Some((bits, end))
}

/// Reads a binary constant.
pub fn read_binary_number(s: &[char], pos: usize) -> (r: Option<(Vec<bool>, usize)>)
    requires
        pos <= s@.len(),
    ensures
        r matches Some((_, end)) ==> pos < end <= s@.len(),
        match r {
            Some((bits, end)) => binary_number_at(s@, pos as int) == Some((bits@, end as int)),
            None => binary_number_at(s@, pos as int) is None,
        },
{
    proof {
        reveal_strlit("0b");
    }
    let start = match expect(s, pos, "0b") {
        Some(start) => start,
        None => pos,
    };
    let end = span(s, start, CharClass::Bit);
    if end == start {
        return None;
    }
    let mut bits: Vec<bool> = Vec::new();
    let mut k = end;
    while k > start
        invariant
            start <= k <= end <= s@.len(),
            bits@ == binary_bits(s@, k as int, end as int),
        decreases k,
    {
        k -= 1;
        bits.push(s[k] == '1');
        assert(bits@ =~= binary_bits(s@, k as int, end as int));
    }
    Some((bits, end))
}

/// Reads a constant.
pub fn read_constant(s: &[char], pos: usize) -> (r: Option<(Vec<bool>, usize)>)
    requires
        pos <= s@.len(),
    ensures
        r matches Some((_, end)) ==> pos < end <= s@.len(),
        match r {
            Some((bits, end)) => constant_at(s@, pos as int) == Some((bits@, end as int)),
            None => constant_at(s@, pos as int) is None,
        },
{
    match read_hex_number(s, pos) {
        Some(r) => Some(r),
        None => read_binary_number(s, pos),
    }
}

/// The characters of a string.
pub fn chars_of(text: &str) -> (r: Vec<char>)
    ensures
        r@ == text@,
{
    let mut out: Vec<char> = Vec::new();
    for c in it: text.chars()
        invariant
            it.seq() == text@,
            out@ == text@.subrange(0, it.index() as int),
    {
        out.push(c);
    }
    assert(out@ =~= text@);
    out
}

} // verus!
