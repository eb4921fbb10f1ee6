//! The grammar of assignments: operations over buses, written with `!` for
//! negation, `&`, `|` and `^` between operands, and the same three signs in
//! front of an operand for the reductions.

use vstd::prelude::*;
use vstd::string::*;
use crate::grammar::{read_wirebus, wirebus_at};
use crate::lexical::{expect, has_prefix, lemma_ws_end, skip_ws, ws_end};
use crate::parsed::{Operation, OperationView, WireAssignment, WireAssignmentView};

verus! {

broadcast use crate::views::group_deep_view;

/// The operators that stand between two operands, or in front of one.
#[derive(PartialEq, Eq, Debug, Copy, Clone, Structural)]
pub enum Sign {
    Not,
    And,
    Or,
    Xor,
}

/// The sign at `pos`, if there is one.
pub open spec fn sign_at(s: Seq<char>, pos: int) -> Option<Sign> {
    if has_prefix(s, pos, "!"@) {
        Some(Sign::Not)
    } else if has_prefix(s, pos, "&"@) {
        Some(Sign::And)
    } else if has_prefix(s, pos, "|"@) {
        Some(Sign::Or)
    } else if has_prefix(s, pos, "^"@) {
        Some(Sign::Xor)
    } else {
        None
    }
}

/// The operation that a sign in front of an operand denotes.
pub open spec fn prefixed(sign: Sign, operand: OperationView) -> OperationView {
    match sign {
        Sign::Not => OperationView::Not(Box::new(operand)),
        Sign::And => OperationView::AndReduce(Box::new(operand)),
        Sign::Or => OperationView::OrReduce(Box::new(operand)),
        Sign::Xor => OperationView::XorReduce(Box::new(operand)),
    }
}

/// The operation that a sign between two operands denotes; `!` stands
/// between none.
pub open spec fn joined(sign: Sign, left: OperationView, right: OperationView) -> Option<
    OperationView,
> {
    match sign {
        Sign::Not => None,
        Sign::And => Some(OperationView::And(Box::new(left), Box::new(right))),
        Sign::Or => Some(OperationView::Or(Box::new(left), Box::new(right))),
        Sign::Xor => Some(OperationView::Xor(Box::new(left), Box::new(right))),
    }
}

/// An operand: a bus; or an operation in parentheses; or a sign and the
/// operand it applies to. White space is allowed before a parenthesis or a
/// sign, and after them.
pub open spec fn literal_at(s: Seq<char>, pos: int) -> Option<(OperationView, int)>
    decreases s.len() - pos, 0nat,
{
    if pos < 0 || pos > s.len() {
        None
    } else {
        match wirebus_at(s, pos) {
            Some((bus, end)) => Some((OperationView::Wire(bus), end)),
            None => {
                let start = ws_end(s, pos);
                proof {
                    lemma_ws_end(s, pos);
                    if start < s.len() {
                        lemma_ws_end(s, start + 1);
                    }
                    reveal_strlit("(");
                    reveal_strlit("!");
                    reveal_strlit("&");
                    reveal_strlit("|");
                    reveal_strlit("^");
                }
                if has_prefix(s, start, "("@) {
                    match operation_at(s, ws_end(s, start + 1)) {
                        Some((op, end)) => {
                            let close = ws_end(s, end);
                            if has_prefix(s, close, ")"@) {
                                Some((op, ws_end(s, close + 1)))
                            } else {
                                None
                            }
                        },
                        None => None,
                    }
                } else {
                    match sign_at(s, start) {
                        Some(sign) => match literal_at(s, ws_end(s, start + 1)) {
                            Some((operand, end)) => Some((prefixed(sign, operand), end)),
                            None => None,
                        },
                        None => None,
                    }
                }
            },
        }
    }
}

/// An operation: an operand, a sign and an operation, with white space
/// allowed around each; or, where the text does not go on like that, an
/// operand alone.
pub open spec fn operation_at(s: Seq<char>, pos: int) -> Option<(OperationView, int)>
    decreases s.len() - pos, 1nat,
{
    if pos < 0 || pos > s.len() {
        None
    } else {
        let start = ws_end(s, pos);
        proof {
            lemma_ws_end(s, pos);
        }
        let binary = match literal_at(s, start) {
            None => None,
            Some((left, end)) => {
                let at = ws_end(s, end);
                let next = ws_end(s, at + 1);
                if pos < next <= s.len() {
                    match sign_at(s, at) {
                        Some(sign) => match operation_at(s, next) {
                            Some((right, last)) => match joined(sign, left, right) {
                                Some(op) => Some((op, ws_end(s, last))),
                                None => None,
                            },
                            None => None,
                        },
                        None => None,
                    }
                } else {
                    None
                }
            },
        };
        match binary {
            Some(found) => Some(found),
            None => literal_at(s, pos),
        }
    }
}

/// Reads the sign at `pos`.
pub fn read_sign(s: &[char], pos: usize) -> (r: Option<Sign>)
    requires
        pos <= s@.len(),
    ensures
        r == sign_at(s@, pos as int),
        r is Some ==> pos < s@.len(),
{
    proof {
        reveal_strlit("!");
        reveal_strlit("&");
        reveal_strlit("|");
        reveal_strlit("^");
    }
    if expect(s, pos, "!").is_some() {
        Some(Sign::Not)
    } else if expect(s, pos, "&").is_some() {
        Some(Sign::And)
    } else if expect(s, pos, "|").is_some() {
        Some(Sign::Or)
    } else if expect(s, pos, "^").is_some() {
        Some(Sign::Xor)
    } else {
        None
    }
}

/// The position after the one character at `pos`.
fn after_sign(s: &[char], pos: usize) -> (r: usize)
    requires
        pos < s@.len(),
    ensures
        r == pos + 1,
{
    assert(pos < s.len());
    pos + 1
}

/// Reads an operand.
pub fn read_literal(s: &[char], pos: usize) -> (r: Option<(Operation, usize)>)
    requires
        pos <= s@.len(),
    ensures
        r matches Some((_, end)) ==> pos < end <= s@.len(),
        match r {
            Some((op, end)) => literal_at(s@, pos as int) == Some((op@, end as int)),
            None => literal_at(s@, pos as int) is None,
        },
    decreases s@.len() - pos, 0nat,
{
    proof {
        reveal_strlit("(");
        reveal_strlit(")");
    }
    match read_wirebus(s, pos) {
        Some((bus, end)) => {
            return Some((Operation::Wire(bus), end));
        },
        None => {},
    }
    let start = skip_ws(s, pos);
    match expect(s, start, "(") {
        Some(open) => {
            let (op, end) = match read_operation(s, skip_ws(s, open)) {
                Some(r) => r,
                None => {
                    return None;
                },
            };
            let close = skip_ws(s, end);
            match expect(s, close, ")") {
                Some(after) => Some((op, skip_ws(s, after))),
                None => None,
            }
        },
        None => match read_sign(s, start) {
            Some(sign) => match read_literal(s, skip_ws(s, after_sign(s, start))) {
                Some((operand, end)) => {
                    let op = match sign {
                        Sign::Not => Operation::Not(Box::new(operand)),
                        Sign::And => Operation::AndReduce(Box::new(operand)),
                        Sign::Or => Operation::OrReduce(Box::new(operand)),
                        Sign::Xor => Operation::XorReduce(Box::new(operand)),
                    };
                    Some((op, end))
                },
                None => None,
            },
            None => None,
        },
    }
}

/// Reads an operation.
pub fn read_operation(s: &[char], pos: usize) -> (r: Option<(Operation, usize)>)
    requires
        pos <= s@.len(),
    ensures
        r matches Some((_, end)) ==> pos < end <= s@.len(),
        match r {
            Some((op, end)) => operation_at(s@, pos as int) == Some((op@, end as int)),
            None => operation_at(s@, pos as int) is None,
        },
    decreases s@.len() - pos, 1nat,
{
    let start = skip_ws(s, pos);
    match read_literal(s, start) {
        Some((left, end)) => {
            let at = skip_ws(s, end);
            let right = match read_sign(s, at) {
                Some(Sign::Not) => None,
                Some(sign) => match read_operation(s, skip_ws(s, after_sign(s, at))) {
                    Some((right, last)) => Some((sign, right, last)),
                    None => None,
                },
                None => None,
            };
            match right {
                Some((sign, right, last)) => {
                    let op = match sign {
                        Sign::And => Operation::And(Box::new(left), Box::new(right)),
                        Sign::Or => Operation::Or(Box::new(left), Box::new(right)),
                        _ => Operation::Xor(Box::new(left), Box::new(right)),
                    };
                    Some((op, skip_ws(s, last)))
                },
                None => if start == pos {
                    Some((left, end))
                } else {
                    read_literal(s, pos)
                },
            }
        },
        None => if start == pos {
            None
        } else {
            read_literal(s, pos)
        },
    }
}

/// An assignment: a bus, `=`, an operation and `;`, with white space allowed
/// around the `=`.
pub open spec fn wire_assignment_at(s: Seq<char>, pos: int) -> Option<(WireAssignmentView, int)> {
    match wirebus_at(s, pos) {
        None => None,
        Some((bus, end)) => {
            let equals = ws_end(s, end);
            if has_prefix(s, equals, "="@) {
                match operation_at(s, ws_end(s, equals + 1)) {
                    Some((operation, last)) => if has_prefix(s, last, ";"@) {
                        Some((WireAssignmentView { bus, operation }, last + 1))
                    } else {
                        None
                    },
                    None => None,
                }
            } else {
                None
            }
        },
    }
}

/// Reads an assignment.
pub fn read_wire_assignment(s: &[char], pos: usize) -> (r: Option<(WireAssignment, usize)>)
    requires
        pos <= s@.len(),
    ensures
        r matches Some((_, end)) ==> pos < end <= s@.len(),
        match r {
            Some((assignment, end)) => wire_assignment_at(s@, pos as int) == Some(
                (assignment@, end as int),
            ),
            None => wire_assignment_at(s@, pos as int) is None,
        },
{
    proof {
        reveal_strlit("=");
        reveal_strlit(";");
    }
    let (bus, end) = match read_wirebus(s, pos) {
        Some(r) => r,
        None => {
            return None;
        },
    };
    let equals = skip_ws(s, end);
    let after = match expect(s, equals, "=") {
        Some(after) => after,
        None => {
            return None;
        },
    };
    let (operation, last) = match read_operation(s, skip_ws(s, after)) {
        Some(r) => r,
        None => {
            return None;
        },
    };
    match expect(s, last, ";") {
        Some(close) => Some((WireAssignment { bus, operation }, close)),
        None => None,
    }
}

} // verus!
