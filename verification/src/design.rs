//! The grammar of module declarations, and the reading of a whole source
//! text into modules whose assignments are lowered to gate instances.

use vstd::prelude::*;
use vstd::string::*;
use crate::assignment::{resolve_all_from, Lowering, Resolver};
use crate::expression::{read_wire_assignment, wire_assignment_at};
use crate::grammar::{
    instance_at, list_at, local_wire_at, read_instance, read_list, read_local_wire, Syntax,
};
use crate::lexical::{
    expect, has_prefix, module_name_end, read_name, skip_ws, slice_text, ws_end, CharClass,
};
use crate::parsed::{
    Instance, InstanceView, Module, ModuleView, Wire, WireAssignment, WireAssignmentView, WireKind,
    WireView,
};
use crate::views::lemma_deep_view_push;

verus! {

broadcast use crate::views::group_deep_view;

/// Why a source text was refused.
#[derive(PartialEq, Eq, Debug, Copy, Clone, Structural)]
pub enum ParseError {
    /// The text does not follow the grammar.
    Syntax,
    /// An assignment has operands whose widths do not fit together.
    Width,
}

/// `wires` with each wire's kind replaced by `kind`.
pub open spec fn of_kind(wires: Seq<WireView>, kind: WireKind) -> Seq<WireView> {
    Seq::new(wires.len(), |i: int| WireView { kind, ..wires[i] })
}

/// A list of ports in parentheses; each port is a wire of the kind `kind`.
pub open spec fn ports_at(s: Seq<char>, pos: int, kind: WireKind) -> Option<(Seq<WireView>, int)> {
    if has_prefix(s, pos, "("@) {
        let (wires, end) = list_at::<Wire>(","@, s, pos + 1);
        if has_prefix(s, end, ")"@) {
            Some((of_kind(wires, kind), end + 1))
        } else {
            None
        }
    } else {
        None
    }
}

/// Reads a list of ports in parentheses.
pub fn read_ports(s: &[char], pos: usize, kind: WireKind) -> (r: Option<(Vec<Wire>, usize)>)
    requires
        pos <= s@.len(),
    ensures
        r matches Some((_, end)) ==> pos < end <= s@.len(),
        match r {
            Some((wires, end)) => ports_at(s@, pos as int, kind) == Some(
                (wires.deep_view(), end as int),
            ),
            None => ports_at(s@, pos as int, kind) is None,
        },
{
    proof {
        reveal_strlit("(");
        reveal_strlit(")");
        reveal_strlit(",");
    }
    let open = match expect(s, pos, "(") {
        Some(open) => open,
        None => {
            return None;
        },
    };
    let (mut wires, end) = read_list::<Wire>(s, open, ",");
    let last = match expect(s, end, ")") {
        Some(last) => last,
        None => {
            return None;
        },
    };
    let ghost plain = wires.deep_view();
    let mut i: usize = 0;
    while i < wires.len()
        invariant
            i <= wires.len(),
            wires@.len() == plain.len(),
            forall|j: int| 0 <= j < i ==> (#[trigger] wires@[j])@ == of_kind(plain, kind)[j],
            forall|j: int| i <= j < plain.len() ==> (#[trigger] wires@[j])@ == plain[j],
        decreases wires.len() - i,
    {
        wires[i].kind = kind;
        i += 1;
    }
    assert(wires.deep_view() =~= of_kind(plain, kind));
    Some((wires, last))
}

/// The head of a module declaration.
pub ghost struct HeaderView {
    pub name: Seq<char>,
    pub inputs: Seq<WireView>,
    pub outputs: Seq<WireView>,
}

/// The head of a module declaration: `module`, the module name, the inputs,
/// `->` and the outputs, with white space allowed around each.
pub open spec fn header_at(s: Seq<char>, pos: int) -> Option<(HeaderView, int)> {
    let start = ws_end(s, pos);
    if has_prefix(s, start, "module"@) {
        let name_start = ws_end(s, start + 6);
        match module_name_end(s, name_start) {
            None => None,
            Some(name_end) => match ports_at(s, ws_end(s, name_end), WireKind::Input) {
                None => None,
                Some((inputs, inputs_end)) => {
                    let arrow = ws_end(s, inputs_end);
                    if has_prefix(s, arrow, "->"@) {
                        match ports_at(s, ws_end(s, arrow + 2), WireKind::Output) {
                            None => None,
                            Some((outputs, outputs_end)) => Some(
                                (
                                    HeaderView {
                                        name: s.subrange(name_start, name_end),
                                        inputs,
                                        outputs,
                                    },
                                    ws_end(s, outputs_end),
                                ),
                            ),
                        }
                    } else {
                        None
                    }
                },
            },
        }
    } else {
        None
    }
}

/// Reads the head of a module declaration: its name, inputs and outputs.
pub fn read_header(s: &[char], pos: usize) -> (r: Option<(String, Vec<Wire>, Vec<Wire>, usize)>)
    requires
        pos <= s@.len(),
    ensures
        r matches Some((_, _, _, end)) ==> pos < end <= s@.len(),
        match r {
            Some((name, inputs, outputs, end)) => header_at(s@, pos as int) == Some(
                (
                    HeaderView {
                        name: name@,
                        inputs: inputs.deep_view(),
                        outputs: outputs.deep_view(),
                    },
                    end as int,
                ),
            ),
            None => header_at(s@, pos as int) is None,
        },
{
    proof {
        reveal_strlit("module");
        reveal_strlit("->");
    }
    let start = skip_ws(s, pos);
    let after = match expect(s, start, "module") {
        Some(after) => after,
        None => {
            return None;
        },
    };
    let name_start = skip_ws(s, after);
    let name_end = match read_name(s, name_start, CharClass::Upper, CharClass::AlphaNum) {
        Some(end) => end,
        None => {
            return None;
        },
    };
    let (inputs, inputs_end) = match read_ports(s, skip_ws(s, name_end), WireKind::Input) {
        Some(r) => r,
        None => {
            return None;
        },
    };
    let arrow = skip_ws(s, inputs_end);
    let after_arrow = match expect(s, arrow, "->") {
        Some(after) => after,
        None => {
            return None;
        },
    };
    let (outputs, outputs_end) = match read_ports(s, skip_ws(s, after_arrow), WireKind::Output) {
        Some(r) => r,
        None => {
            return None;
        },
    };
    Some((slice_text(s, name_start, name_end), inputs, outputs, skip_ws(s, outputs_end)))
}

/// What the body of a module has declared so far.
pub ghost struct BodyView {
    pub locals: Seq<WireView>,
    pub instances: Seq<InstanceView>,
    pub assignments: Seq<WireAssignmentView>,
}

/// One item of a module body, added to `body`: a declaration of private
/// wires, or an instance, or an assignment.
pub open spec fn body_part_at(s: Seq<char>, pos: int, body: BodyView) -> Option<(BodyView, int)> {
    match local_wire_at(s, pos) {
        Some((wires, end)) => Some((BodyView { locals: body.locals + wires, ..body }, end)),
        None => match instance_at(s, pos) {
            Some((instance, end)) => Some(
                (BodyView { instances: body.instances.push(instance), ..body }, end),
            ),
            None => match wire_assignment_at(s, pos) {
                Some((assignment, end)) => Some(
                    (BodyView { assignments: body.assignments.push(assignment), ..body }, end),
                ),
                None => None,
            },
        },
    }
}

/// The items of a module body from `pos` on, each with white space allowed
/// before and after it; they end where no further item can be read.
pub open spec fn body_parts_from(s: Seq<char>, pos: int, body: BodyView) -> (BodyView, int)
    decreases s.len() - pos,
{
    match body_part_at(s, ws_end(s, pos), body) {
        Some((next, end)) => {
            let after = ws_end(s, end);
            if pos < after <= s.len() {
                body_parts_from(s, after, next)
            } else {
                (body, pos)
            }
        },
        None => (body, pos),
    }
}

/// A module body: `{`, the items, and `}`, with white space allowed after
/// the `{` and around the `}`. The items are added to `start`.
pub open spec fn body_at(s: Seq<char>, pos: int, start: BodyView) -> Option<(BodyView, int)> {
    if has_prefix(s, pos, "{"@) {
        let (body, end) = body_parts_from(s, ws_end(s, pos + 1), start);
        let close = ws_end(s, end);
        if has_prefix(s, close, "}"@) {
            Some((body, ws_end(s, close + 1)))
        } else {
            None
        }
    } else {
        None
    }
}

/// A module declaration: head and body. The wires of the module are its
/// inputs, its outputs and its private wires, in this order.
pub open spec fn module_syntax_at(s: Seq<char>, pos: int) -> Option<
    ((ModuleView, Seq<WireAssignmentView>), int),
> {
    match header_at(s, pos) {
        None => None,
        Some((header, end)) => {
            let start = BodyView {
                locals: header.inputs + header.outputs,
                instances: Seq::empty(),
                assignments: Seq::empty(),
            };
            match body_at(s, ws_end(s, end), start) {
                None => None,
                Some((body, last)) => Some(
                    (
                        (
                            ModuleView {
                                name: header.name,
                                locals: body.locals,
                                instances: body.instances,
                            },
                            body.assignments,
                        ),
                        last,
                    ),
                ),
            }
        },
    }
}

/// Moves the wires of `more` to the end of `locals`.
fn extend_wires(locals: &mut Vec<Wire>, more: Vec<Wire>)
    ensures
        final(locals).deep_view() == old(locals).deep_view() + more.deep_view(),
{
    let mut more = more;
    let ghost tail = more.deep_view();
    let ghost head = locals.deep_view();
    let ghost before = *locals;
    let ghost moved = more;
    locals.append(&mut more);
    assert(locals@ == before@ + moved@);
    assert(locals.deep_view() =~= head + tail) by {
        assert forall|i: int| 0 <= i < locals@.len() implies locals.deep_view()[i] == (head + tail)[i] by {
            if i < before@.len() {
                assert(locals@[i] == before@[i]);
            } else {
                assert(locals@[i] == moved@[i - before@.len()]);
            }
        }
    }
}

/// Reads a module declaration: the module as declared, and its assignments.
#[verifier::loop_isolation(false)]
pub fn read_module(s: &[char], pos: usize) -> (r: Option<(Module, Vec<WireAssignment>, usize)>)
    requires
        pos <= s@.len(),
    ensures
        r matches Some((_, _, end)) ==> pos < end <= s@.len(),
        match r {
            Some((module, assignments, end)) => module_syntax_at(s@, pos as int) == Some(
                ((module@, assignments.deep_view()), end as int),
            ),
            None => module_syntax_at(s@, pos as int) is None,
        },
{
    proof {
        reveal_strlit("{");
        reveal_strlit("}");
    }
    let (name, inputs, outputs, header_end) = match read_header(s, pos) {
        Some(r) => r,
        None => {
            return None;
        },
    };
    let mut locals: Vec<Wire> = inputs;
    extend_wires(&mut locals, outputs);
    let mut instances: Vec<Instance> = Vec::new();
    let mut assignments: Vec<WireAssignment> = Vec::new();
    let ghost start = BodyView {
        locals: locals.deep_view(),
        instances: Seq::empty(),
        assignments: Seq::empty(),
    };
    assert(instances.deep_view() =~= start.instances);
    assert(assignments.deep_view() =~= start.assignments);
    let open = skip_ws(s, header_end);
    let inside = match expect(s, open, "{") {
        Some(inside) => inside,
        None => {
            return None;
        },
    };
    let first = skip_ws(s, inside);
    let mut at = first;
    loop
        invariant
            pos < at <= s@.len(),
            body_parts_from(s@, first as int, start) == body_parts_from(
                s@,
                at as int,
                BodyView {
                    locals: locals.deep_view(),
                    instances: instances.deep_view(),
                    assignments: assignments.deep_view(),
                },
            ),
        decreases s@.len() - at,
    {
        let item = skip_ws(s, at);
        let end = match read_local_wire(s, item) {
            Some((wires, end)) => {
                extend_wires(&mut locals, wires);
                end
            },
            None => match read_instance(s, item) {
                Some((instance, end)) => {
                    let ghost before = instances;
                    instances.push(instance);
                    proof {
                        lemma_deep_view_push(before, instances, instance);
                    }
                    end
                },
                None => match read_wire_assignment(s, item) {
                    Some((assignment, end)) => {
                        let ghost before = assignments;
                        assignments.push(assignment);
                        proof {
                            lemma_deep_view_push(before, assignments, assignment);
                        }
                        end
                    },
                    None => {
                        break ;
                    },
                },
            },
        };
        at = skip_ws(s, end);
    }
    let close = skip_ws(s, at);
    match expect(s, close, "}") {
        Some(after) => Some((Module { name, locals, instances }, assignments, skip_ws(s, after))),
        None => None,
    }
}

/// The module `m` with its assignments lowered, where they can be.
pub open spec fn lowered(m: ModuleView, assignments: Seq<WireAssignmentView>) -> Option<ModuleView> {
    match resolve_all_from(
        Lowering { locals: m.locals, instances: m.instances, counter: 0 },
        assignments,
        0,
    ) {
        Some(done) => Some(
            ModuleView { name: m.name, locals: done.locals, instances: done.instances },
        ),
        None => None,
    }
}

/// Lowers the assignments of a module into it.
pub fn lower(module: Module, assignments: Vec<WireAssignment>) -> (r: Result<Module, ()>)
    ensures
        match r {
            Ok(done) => lowered(module@, assignments.deep_view()) == Some(done@),
            Err(_) => lowered(module@, assignments.deep_view()) is None,
        },
{
    let mut module = module;
    let outcome = {
        let mut resolver = Resolver::new(&mut module);
        resolver.resolve_assignments(assignments)
    };
    match outcome {
        Ok(_) => Ok(module),
        Err(_) => Err(()),
    }
}

/// The modules of a text from `pos` on, added to `acc`: the text must
/// consist of module declarations up to its end, and the assignments of each
/// module must lower.
pub open spec fn modules_from(s: Seq<char>, pos: int, acc: Seq<ModuleView>) -> Result<
    Seq<ModuleView>,
    ParseError,
>
    decreases s.len() - pos,
{
    match module_syntax_at(s, pos) {
        None => if pos == s.len() {
            Ok(acc)
        } else {
            Err(ParseError::Syntax)
        },
        Some(((module, assignments), end)) => if pos < end <= s.len() {
            match lowered(module, assignments) {
                Some(done) => modules_from(s, end, acc.push(done)),
                None => Err(ParseError::Width),
            }
        } else {
            Err(ParseError::Syntax)
        },
    }
}

/// Reads a whole text of module declarations.
pub fn read_modules(s: &[char]) -> (r: Result<Vec<Module>, ParseError>)
    ensures
        match r {
            Ok(modules) => modules_from(s@, 0, Seq::empty()) == Ok::<Seq<ModuleView>, ParseError>(
                modules.deep_view(),
            ),
            Err(e) => modules_from(s@, 0, Seq::empty()) == Err::<Seq<ModuleView>, ParseError>(e),
        },
{
    let mut modules: Vec<Module> = Vec::new();
    let mut at: usize = 0;
    assert(modules.deep_view() =~= Seq::empty());
    loop
        invariant
            at <= s@.len(),
            modules_from(s@, 0, Seq::empty()) == modules_from(s@, at as int, modules.deep_view()),
        decreases s@.len() - at,
    {
        let (module, assignments, end) = match read_module(s, at) {
            Some(r) => r,
            None => {
                if at == s.len() {
                    return Ok(modules);
                } else {
                    return Err(ParseError::Syntax);
                }
            },
        };
        let done = match lower(module, assignments) {
            Ok(done) => done,
            Err(_) => {
                return Err(ParseError::Width);
            },
        };
        let ghost before = modules;
        modules.push(done);
        proof {
            lemma_deep_view_push(before, modules, done);
        }
        at = end;
    }
}

} // verus!
