//! The syntax tree of a design: modules, wires, instances, connections and
//! assignment expressions, together with the mathematical view of each.

use vstd::prelude::*;

verus! {

broadcast use crate::views::group_deep_view;

/// Visibility of a wire relative to the module that declares it.
#[derive(PartialEq, Eq, Debug, Copy, Clone, Structural)]
pub enum WireKind {
    /// Only accessible to the local scope.
    Private,
    /// Accessible to the local scope and as an input in an instance.
    Input,
    /// Accessible to the local scope and as an output in an instance.
    Output,
}

/// A named bit vector declared by a module.
#[derive(PartialEq, Eq, Debug, Clone)]
pub struct Wire {
    pub name: String,
    /// Number of bits this wire can hold.
    pub width: usize,
    pub kind: WireKind,
}

/// The part of a wire that a bus refers to; both ends are inclusive.
#[derive(PartialEq, Eq, Debug, Copy, Clone, Structural)]
pub enum WireRange {
    Ranged { from: usize, to: usize },
    Total,
}

/// One element of a bus: a slice of a named wire or a literal bit vector.
#[derive(PartialEq, Eq, Debug)]
pub enum WirePart {
    Local { name: String, range: WireRange },
    Constant(Vec<bool>),
}

/// A concatenation of parts; index 0 is the least significant bit.
pub type WireBus = Vec<WirePart>;

/// Binds a port of an instantiated module to a bus of the enclosing module.
#[derive(PartialEq, Eq, Debug, Clone)]
pub struct Connection {
    /// Bus of the enclosing module.
    pub local: WireBus,
    /// Name of the port on the instantiated module.
    pub module: String,
}

/// An instantiation of a module inside another one.
#[derive(PartialEq, Eq, Debug, Clone)]
pub struct Instance {
    pub module: String,
    pub name: String,
    pub inputs: Vec<Connection>,
    pub outputs: Vec<Connection>,
}

/// A module declaration: its wires (ports first) and the instances in its body.
#[derive(PartialEq, Eq, Debug, Clone)]
pub struct Module {
    pub name: String,
    pub locals: Vec<Wire>,
    pub instances: Vec<Instance>,
}

/// Right-hand side of an assignment.
#[derive(PartialEq, Eq, Debug)]
pub enum Operation {
    Wire(WireBus),
    And(Box<Operation>, Box<Operation>),
    Or(Box<Operation>, Box<Operation>),
    Xor(Box<Operation>, Box<Operation>),
    AndReduce(Box<Operation>),
    OrReduce(Box<Operation>),
    XorReduce(Box<Operation>),
    Not(Box<Operation>),
}

/// An assignment `bus = operation;`.
#[derive(PartialEq, Eq, Debug, Clone)]
pub struct WireAssignment {
    pub bus: WireBus,
    pub operation: Operation,
}

pub ghost struct WireView {
    pub name: Seq<char>,
    pub width: nat,
    pub kind: WireKind,
}

pub ghost enum WirePartView {
    Local { name: Seq<char>, range: WireRange },
    Constant(Seq<bool>),
}

pub ghost struct ConnectionView {
    pub local: Seq<WirePartView>,
    pub module: Seq<char>,
}

pub ghost struct InstanceView {
    pub module: Seq<char>,
    pub name: Seq<char>,
    pub inputs: Seq<ConnectionView>,
    pub outputs: Seq<ConnectionView>,
}

pub ghost struct ModuleView {
    pub name: Seq<char>,
    pub locals: Seq<WireView>,
    pub instances: Seq<InstanceView>,
}

pub ghost enum OperationView {
    Wire(Seq<WirePartView>),
    And(Box<OperationView>, Box<OperationView>),
    Or(Box<OperationView>, Box<OperationView>),
    Xor(Box<OperationView>, Box<OperationView>),
    AndReduce(Box<OperationView>),
    OrReduce(Box<OperationView>),
    XorReduce(Box<OperationView>),
    Not(Box<OperationView>),
}

pub ghost struct WireAssignmentView {
    pub bus: Seq<WirePartView>,
    pub operation: OperationView,
}

impl DeepView for Wire {
    type V = WireView;

    open spec fn deep_view(&self) -> WireView {
        WireView { name: self.name@, width: self.width as nat, kind: self.kind }
    }
}

impl View for Wire {
    type V = WireView;

    open spec fn view(&self) -> WireView {
        self.deep_view()
    }
}

impl DeepView for WirePart {
    type V = WirePartView;

    open spec fn deep_view(&self) -> WirePartView {
        match self {
            WirePart::Local { name, range } => WirePartView::Local { name: name@, range: *range },
            WirePart::Constant(bits) => WirePartView::Constant(bits@),
        }
    }
}

impl View for WirePart {
    type V = WirePartView;

    open spec fn view(&self) -> WirePartView {
        self.deep_view()
    }
}

impl DeepView for Connection {
    type V = ConnectionView;

    open spec fn deep_view(&self) -> ConnectionView {
        ConnectionView { local: self.local.deep_view(), module: self.module@ }
    }
}

impl View for Connection {
    type V = ConnectionView;

    open spec fn view(&self) -> ConnectionView {
        self.deep_view()
    }
}

impl DeepView for Instance {
    type V = InstanceView;

    open spec fn deep_view(&self) -> InstanceView {
        InstanceView {
            module: self.module@,
            name: self.name@,
            inputs: self.inputs.deep_view(),
            outputs: self.outputs.deep_view(),
        }
    }
}

impl View for Instance {
    type V = InstanceView;

    open spec fn view(&self) -> InstanceView {
        self.deep_view()
    }
}

impl DeepView for Module {
    type V = ModuleView;

    open spec fn deep_view(&self) -> ModuleView {
        ModuleView {
            name: self.name@,
            locals: self.locals.deep_view(),
            instances: self.instances.deep_view(),
        }
    }
}

impl View for Module {
    type V = ModuleView;

    open spec fn view(&self) -> ModuleView {
        self.deep_view()
    }
}

/// The mathematical value of an operation tree.
pub open spec fn operation_view(op: Operation) -> OperationView
    decreases op,
{
    match op {
        Operation::Wire(bus) => OperationView::Wire(bus.deep_view()),
        Operation::And(a, b) => OperationView::And(
            Box::new(operation_view(*a)),
            Box::new(operation_view(*b)),
        ),
        Operation::Or(a, b) => OperationView::Or(
            Box::new(operation_view(*a)),
            Box::new(operation_view(*b)),
        ),
        Operation::Xor(a, b) => OperationView::Xor(
            Box::new(operation_view(*a)),
            Box::new(operation_view(*b)),
        ),
        Operation::AndReduce(a) => OperationView::AndReduce(Box::new(operation_view(*a))),
        Operation::OrReduce(a) => OperationView::OrReduce(Box::new(operation_view(*a))),
        Operation::XorReduce(a) => OperationView::XorReduce(Box::new(operation_view(*a))),
        Operation::Not(a) => OperationView::Not(Box::new(operation_view(*a))),
    }
}

impl DeepView for Operation {
    type V = OperationView;

    open spec fn deep_view(&self) -> OperationView {
        operation_view(*self)
    }
}

impl View for Operation {
    type V = OperationView;

    open spec fn view(&self) -> OperationView {
        self.deep_view()
    }
}

impl DeepView for WireAssignment {
    type V = WireAssignmentView;

    open spec fn deep_view(&self) -> WireAssignmentView {
        WireAssignmentView { bus: self.bus.deep_view(), operation: self.operation@ }
    }
}

impl View for WireAssignment {
    type V = WireAssignmentView;

    open spec fn view(&self) -> WireAssignmentView {
        self.deep_view()
    }
}

/// Index of the first wire in `locals` that is called `name`.
pub open spec fn find_local(locals: Seq<WireView>, name: Seq<char>) -> Option<int>
    decreases locals.len(),
{
    if locals.len() == 0 {
        None
    } else if locals[0].name == name {
        Some(0)
    } else {
        match find_local(locals.drop_first(), name) {
            Some(i) => Some(i + 1),
            None => None,
        }
    }
}

/// `find_local` returns the least index that carries the name, if any does.
pub proof fn lemma_find_local(locals: Seq<WireView>, name: Seq<char>)
    ensures
        match find_local(locals, name) {
            Some(i) => {
                &&& 0 <= i < locals.len()
                &&& locals[i].name == name
                &&& forall|j: int| 0 <= j < i ==> locals[j].name != name
            },
            None => forall|j: int| 0 <= j < locals.len() ==> locals[j].name != name,
        },
    decreases locals.len(),
{
    if locals.len() != 0 && locals[0].name != name {
        let rest = locals.drop_first();
        lemma_find_local(rest, name);
        match find_local(rest, name) {
            Some(i) => {
                assert forall|j: int| 0 <= j < i + 1 implies locals[j].name != name by {
                    if j > 0 {
                        assert(locals[j] == rest[j - 1]);
                    }
                }
            },
            None => {
                assert forall|j: int| 0 <= j < locals.len() implies locals[j].name != name by {
                    if j > 0 {
                        assert(locals[j] == rest[j - 1]);
                    }
                }
            },
        }
    }
}

/// Number of bits a bus part denotes inside a module with the given wires.
///
/// A ranged part has the width its bounds give, whatever wire it names; a
/// ranged part with `from > to`, a total part naming no wire, and a width that
/// does not fit the machine word have no width.
pub open spec fn part_width(part: WirePartView, locals: Seq<WireView>) -> Option<nat> {
    match part {
        WirePartView::Constant(bits) => Some(bits.len()),
        WirePartView::Local { name, range: WireRange::Ranged { from, to } } => {
            if from <= to && to - from < usize::MAX {
                Some((to - from + 1) as nat)
            } else {
                None
            }
        },
        WirePartView::Local { name, range: WireRange::Total } => {
            match find_local(locals, name) {
                Some(i) => Some(locals[i].width),
                None => None,
            }
        },
    }
}

/// Number of bits of a bus: the sum of its parts' widths, where every part
/// has one and the sum fits the machine word.
pub open spec fn bus_width(bus: Seq<WirePartView>, locals: Seq<WireView>) -> Option<nat>
    decreases bus.len(),
{
    if bus.len() == 0 {
        Some(0)
    } else {
        match bus_width(bus.drop_last(), locals) {
            Some(w) => match part_width(bus.last(), locals) {
                Some(p) => if w + p <= usize::MAX {
                    Some(w + p)
                } else {
                    None
                },
                None => None,
            },
            None => None,
        }
    }
}

/// Number of bits an operation produces: a bus has its own width, `Not` keeps
/// the operand's, a binary operation needs two operands of one width and keeps
/// it, and a reduction of any operand with a width produces one bit.
pub open spec fn operation_width(op: OperationView, locals: Seq<WireView>) -> Option<nat>
    decreases op,
{
    match op {
        OperationView::Wire(bus) => bus_width(bus, locals),
        OperationView::And(a, b) | OperationView::Or(a, b) | OperationView::Xor(a, b) => {
            match (operation_width(*a, locals), operation_width(*b, locals)) {
                (Some(x), Some(y)) => if x == y {
                    Some(x)
                } else {
                    None
                },
                _ => None,
            }
        },
        OperationView::Not(a) => operation_width(*a, locals),
        OperationView::AndReduce(a) | OperationView::OrReduce(a) | OperationView::XorReduce(a) => {
            match operation_width(*a, locals) {
                Some(_) => Some(1),
                None => None,
            }
        },
    }
}

impl Clone for WirePart {
    fn clone(&self) -> (r: Self)
        ensures
            r@ == self@,
    {
        match self {
            WirePart::Local { name, range } => WirePart::Local {
                name: name.clone(),
                range: *range,
            },
            WirePart::Constant(bits) => WirePart::Constant(bits.clone()),
        }
    }
}

/// A copy of `bus`, part by part.
pub fn clone_bus(bus: &Vec<WirePart>) -> (r: Vec<WirePart>)
    ensures
        r.deep_view() == bus.deep_view(),
{
    let mut out: Vec<WirePart> = Vec::new();
    let mut i: usize = 0;
    while i < bus.len()
        invariant
            i <= bus.len(),
            out.deep_view() == bus.deep_view().take(i as int),
        decreases bus.len() - i,
    {
        let part = bus[i].clone();
        let ghost before = out;
        out.push(part);
        proof {
            crate::views::lemma_deep_view_push(before, out, part);
        }
        i += 1;
        assert(out.deep_view() =~= bus.deep_view().take(i as int));
    }
    assert(bus.deep_view().take(bus.len() as int) == bus.deep_view());
    out
}

impl Clone for Operation {
    fn clone(&self) -> (r: Self)
        ensures
            r@ == self@,
        decreases self,
    {
        match self {
            Operation::Wire(bus) => Operation::Wire(clone_bus(bus)),
            Operation::And(a, b) => Operation::And(Box::new((**a).clone()), Box::new((**b).clone())),
            Operation::Or(a, b) => Operation::Or(Box::new((**a).clone()), Box::new((**b).clone())),
            Operation::Xor(a, b) => Operation::Xor(Box::new((**a).clone()), Box::new((**b).clone())),
            Operation::AndReduce(a) => Operation::AndReduce(Box::new((**a).clone())),
            Operation::OrReduce(a) => Operation::OrReduce(Box::new((**a).clone())),
            Operation::XorReduce(a) => Operation::XorReduce(Box::new((**a).clone())),
            Operation::Not(a) => Operation::Not(Box::new((**a).clone())),
        }
    }
}

/// Finds the first wire called `name`; the result is its index.
pub fn find_wire(locals: &Vec<Wire>, name: &String) -> (r: Option<usize>)
    ensures
        match r {
            Some(i) => i < locals.len() && find_local(locals.deep_view(), name@) == Some(i as int),
            None => find_local(locals.deep_view(), name@) is None,
        },
{
    let mut idx: usize = 0;
    while idx < locals.len()
        invariant
            idx <= locals.len(),
            forall|j: int| 0 <= j < idx ==> locals.deep_view()[j].name != name@,
        decreases locals.len() - idx,
    {
        if locals[idx].name == *name {
            proof {
                lemma_find_local(locals.deep_view(), name@);
                assert(locals.deep_view()[idx as int].name == name@);
            }
            return Some(idx);
        }
        idx += 1;
    }
    proof {
        lemma_find_local(locals.deep_view(), name@);
    }
    None
}

impl WirePart {
    /// The whole of the wire called `name`.
    pub fn total(name: &str) -> (r: Self)
        ensures
            r@ == (WirePartView::Local { name: name@, range: WireRange::Total }),
    {
        WirePart::Local { name: name.to_owned(), range: WireRange::Total }
    }

    /// Bits `from..=to` of the wire called `name`.
    pub fn ranged(name: &str, from: usize, to: usize) -> (r: Self)
        ensures
            r@ == (WirePartView::Local { name: name@, range: WireRange::Ranged { from, to } }),
    {
        WirePart::Local { name: name.to_owned(), range: WireRange::Ranged { from, to } }
    }

    /// A literal bit vector.
    pub fn constant(constant: Vec<bool>) -> (r: Self)
        ensures
            r@ == WirePartView::Constant(constant@),
    {
        WirePart::Constant(constant)
    }

    /// Number of bits this part denotes inside `module`.
    pub fn width(&self, module: &Module) -> (r: Result<usize, ()>)
        ensures
            match r {
                Ok(w) => part_width(self@, module@.locals) == Some(w as nat),
                Err(_) => part_width(self@, module@.locals) is None,
            },
    {
        match self {
            WirePart::Constant(bits) => Ok(bits.len()),
            WirePart::Local { name, range } => match range {
                WireRange::Ranged { from, to } => {
                    if *from <= *to && *to - *from < usize::MAX {
                        Ok(*to - *from + 1)
                    } else {
                        Err(())
                    }
                },
                WireRange::Total => match find_wire(&module.locals, name) {
                    Some(i) => Ok(module.locals[i].width),
                    None => Err(()),
                },
            },
        }
    }
}

/// Number of bits of `bus` inside `module`.
pub fn width_of_bus(bus: &Vec<WirePart>, module: &Module) -> (r: Result<usize, ()>)
    ensures
        match r {
            Ok(w) => bus_width(bus.deep_view(), module@.locals) == Some(w as nat),
            Err(_) => bus_width(bus.deep_view(), module@.locals) is None,
        },
{
    let mut sum: usize = 0;
    let mut i: usize = 0;
    while i < bus.len()
        invariant
            i <= bus.len(),
            bus_width(bus.deep_view().take(i as int), module@.locals) == Some(sum as nat),
        decreases bus.len() - i,
    {
        proof {
            let next = bus.deep_view().take(i + 1);
            assert(next.drop_last() == bus.deep_view().take(i as int));
            assert(next.last() == bus[i as int]@);
        }
        match bus[i].width(module) {
            Ok(w) => {
                if w > usize::MAX - sum {
                    proof {
                        lemma_bus_width_prefix(bus.deep_view(), (i + 1) as int, module@.locals);
                    }
                    return Err(());
                }
                sum += w;
            },
            Err(_) => {
                proof {
                    lemma_bus_width_prefix(bus.deep_view(), (i + 1) as int, module@.locals);
                }
                return Err(());
            },
        }
        i += 1;
    }
    proof {
        assert(bus.deep_view().take(bus.len() as int) == bus.deep_view());
    }
    Ok(sum)
}

/// A bus has no width once one of its prefixes has none.
pub proof fn lemma_bus_width_prefix(bus: Seq<WirePartView>, n: int, locals: Seq<WireView>)
    requires
        0 <= n <= bus.len(),
        bus_width(bus.take(n), locals) is None,
    ensures
        bus_width(bus, locals) is None,
    decreases bus.len(),
{
    if n < bus.len() {
        assert(bus.drop_last().take(n) == bus.take(n));
        lemma_bus_width_prefix(bus.drop_last(), n, locals);
    } else {
        assert(bus.take(n) == bus);
    }
}

impl Operation {
    /// Number of bits this operation produces inside `module`.
    pub fn width(&self, module: &Module) -> (r: Result<usize, ()>)
        ensures
            match r {
                Ok(w) => operation_width(self@, module@.locals) == Some(w as nat),
                Err(_) => operation_width(self@, module@.locals) is None,
            },
        decreases self,
    {
        match self {
            Operation::Wire(bus) => width_of_bus(bus, module),
            Operation::And(a, b) | Operation::Or(a, b) | Operation::Xor(a, b) => {
                let x = a.width(module)?;
                let y = b.width(module)?;
                if x == y {
                    Ok(x)
                } else {
                    Err(())
                }
            },
            Operation::Not(a) => a.width(module),
            Operation::AndReduce(a) | Operation::OrReduce(a) | Operation::XorReduce(a) => {
                let _ = a.width(module)?;
                Ok(1)
            },
        }
    }
}

} // verus!
