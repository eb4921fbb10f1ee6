//! The hierarchy index: the tree of elaborated modules, and the lookup of
//! dotted paths in it.

use vstd::prelude::*;
use vstd::string::*;
use crate::text::{index_of, lemma_index_of, lemma_index_of_least, lemma_index_of_none, push_char};

verus! {

broadcast use crate::views::group_deep_view;

/// An elaborated module: its wires with their places in the netlist, and the
/// elaborated instances in its body, in source order.
#[derive(Debug)]
pub struct GraphModule {
    pub module_name: String,
    pub name: String,
    pub locals: Vec<GraphWire>,
    pub instances: Vec<GraphModule>,
}

/// An elaborated wire: the netlist index of each of its bits, lowest bit first.
#[derive(Debug)]
pub struct GraphWire {
    pub name: String,
    pub values: Vec<usize>,
}

/// Why a query on the hierarchy failed.
#[derive(Debug)]
pub enum Error {
    InvalidPath(String),
}

pub ghost struct GraphWireView {
    pub name: Seq<char>,
    pub values: Seq<usize>,
}

pub ghost struct GraphModuleView {
    pub module_name: Seq<char>,
    pub name: Seq<char>,
    pub locals: Seq<GraphWireView>,
    pub instances: Seq<GraphModuleView>,
}

pub ghost enum ErrorView {
    InvalidPath(Seq<char>),
}

impl DeepView for GraphWire {
    type V = GraphWireView;

    open spec fn deep_view(&self) -> GraphWireView {
        GraphWireView { name: self.name@, values: self.values@ }
    }
}

impl View for GraphWire {
    type V = GraphWireView;

    open spec fn view(&self) -> GraphWireView {
        self.deep_view()
    }
}

/// The mathematical value of an elaborated tree.
pub open spec fn graph_view(g: GraphModule) -> GraphModuleView
    decreases g,
{
    GraphModuleView {
        module_name: g.module_name@,
        name: g.name@,
        locals: g.locals.deep_view(),
        instances: Seq::new(
            g.instances@.len(),
            |i: int|
                if 0 <= i < g.instances@.len() {
                    graph_view(g.instances@[i])
                } else {
                    arbitrary()
                },
        ),
    }
}

impl DeepView for GraphModule {
    type V = GraphModuleView;

    open spec fn deep_view(&self) -> GraphModuleView {
        graph_view(*self)
    }
}

impl View for GraphModule {
    type V = GraphModuleView;

    open spec fn view(&self) -> GraphModuleView {
        graph_view(*self)
    }
}

impl View for Error {
    type V = ErrorView;

    open spec fn view(&self) -> ErrorView {
        match self {
            Error::InvalidPath(text) => ErrorView::InvalidPath(text@),
        }
    }
}

impl GraphModuleView {
    pub open spec fn instance_names(self) -> Seq<Seq<char>> {
        Seq::new(self.instances.len(), |i: int| self.instances[i].name)
    }

    pub open spec fn local_names(self) -> Seq<Seq<char>> {
        Seq::new(self.locals.len(), |i: int| self.locals[i].name)
    }

    /// Every bit of every wire in the tree is an index below `n`.
    pub open spec fn bounded(self, n: nat) -> bool
        decreases self,
    {
        &&& forall|w: int, b: int|
            0 <= w < self.locals.len() && 0 <= b < self.locals[w].values.len()
                ==> #[trigger] self.locals[w].values[b] < n
        &&& forall|i: int| 0 <= i < self.instances.len() ==> (#[trigger] self.instances[i]).bounded(n)
    }
}

/// Where a dotted path leads.
pub ghost enum Target {
    /// The path names instances only, and ends at this module.
    Module(GraphModuleView),
    /// The last segment names this wire.
    Wire(GraphWireView),
    /// The segment `field` names nothing usable in the module `module`.
    Missing { field: Seq<char>, module: Seq<char> },
}

/// Follows `path` from `g`: each segment but the last must name an instance;
/// the last names an instance or, where no instance has that name, a wire.
pub open spec fn resolve(g: GraphModuleView, path: Seq<Seq<char>>) -> Target
    decreases path.len(),
{
    if path.len() == 0 {
        Target::Module(g)
    } else {
        match index_of(g.instance_names(), path[0]) {
            Some(i) => resolve(g.instances[i], path.drop_first()),
            None => match index_of(g.local_names(), path[0]) {
                Some(i) => if path.len() == 1 {
                    Target::Wire(g.locals[i])
                } else {
                    Target::Missing { field: path[0], module: g.name }
                },
                None => Target::Missing { field: path[0], module: g.name },
            },
        }
    }
}

/// The text of the error for a segment that names nothing.
pub open spec fn missing_text(field: Seq<char>, module: Seq<char>) -> Seq<char> {
    "No field with name '"@ + field + "' in module '"@ + module + "'"@
}

/// The text of the error for a path that names a module where a wire is
/// wanted.
pub open spec fn module_text() -> Seq<char> {
    "This path refers to a module"@
}

/// The netlist indices of the wire that `path` names.
pub open spec fn wire_addr_of(g: GraphModuleView, path: Seq<Seq<char>>) -> Result<
    Seq<usize>,
    ErrorView,
> {
    match resolve(g, path) {
        Target::Wire(w) => Ok(w.values),
        Target::Module(_) => Err(ErrorView::InvalidPath(module_text())),
        Target::Missing { field, module } => Err(
            ErrorView::InvalidPath(missing_text(field, module)),
        ),
    }
}

/// The number of bits of the wire that `path` names.
pub open spec fn wire_width_of(g: GraphModuleView, path: Seq<Seq<char>>) -> Result<nat, ErrorView> {
    match resolve(g, path) {
        Target::Wire(w) => Ok(w.values.len()),
        Target::Module(_) => Err(ErrorView::InvalidPath(module_text())),
        Target::Missing { field, module } => Err(
            ErrorView::InvalidPath(missing_text(field, module)),
        ),
    }
}

/// The address of a wire has as many entries as the wire is wide, and the two
/// queries fail on the same paths with the same error.
pub proof fn lemma_addr_width(g: GraphModuleView, path: Seq<Seq<char>>)
    ensures
        match wire_addr_of(g, path) {
            Ok(addr) => wire_width_of(g, path) == Ok::<nat, ErrorView>(addr.len()),
            Err(e) => wire_width_of(g, path) == Err::<nat, ErrorView>(e),
        },
{
}

/// Where a path leads in a bounded tree, the wire or module is bounded too.
pub proof fn lemma_resolve_bounded(g: GraphModuleView, path: Seq<Seq<char>>, n: nat)
    requires
        g.bounded(n),
    ensures
        match resolve(g, path) {
            Target::Wire(w) => forall|b: int| 0 <= b < w.values.len() ==> #[trigger] w.values[b] < n,
            Target::Module(m) => m.bounded(n),
            Target::Missing { .. } => true,
        },
    decreases path.len(),
{
    if path.len() > 0 {
        lemma_index_of(g.instance_names(), path[0]);
        lemma_index_of(g.local_names(), path[0]);
        match index_of(g.instance_names(), path[0]) {
            Some(i) => {
                lemma_resolve_bounded(g.instances[i], path.drop_first(), n);
            },
            None => {},
        }
    }
}

/// A tree that is bounded by `n` is bounded by every larger number.
pub proof fn lemma_bounded_grows(g: GraphModuleView, n: nat, more: nat)
    requires
        g.bounded(n),
        n <= more,
    ensures
        g.bounded(more),
    decreases g,
{
    assert forall|w: int, b: int|
        0 <= w < g.locals.len() && 0 <= b < g.locals[w].values.len() implies #[trigger] g.locals[w].values[b]
        < more by {
        assert(g.locals[w].values[b] < n);
    }
    assert forall|i: int| 0 <= i < g.instances.len() implies (#[trigger] g.instances[i]).bounded(
        more,
    ) by {
        lemma_bounded_grows(g.instances[i], n, more);
    }
}

/// The views of a sequence of trees.
pub open spec fn graphs_view(graphs: Seq<GraphModule>) -> Seq<GraphModuleView> {
    Seq::new(graphs.len(), |i: int| graphs[i]@)
}

/// The names of a path's segments.
pub open spec fn path_view(path: Seq<String>) -> Seq<Seq<char>> {
    Seq::new(path.len(), |i: int| path[i]@)
}

/// Renders the value of a wire from the places of its bits.
pub trait WireDisplayer {
    /// Whether the wire can be rendered.
    spec fn can_display(&self, wire: Seq<usize>) -> bool;

    /// The rendering of the wire.
    spec fn wire_text(&self, wire: Seq<usize>) -> Seq<char>;

    fn display_wire(&self, wire: &[usize]) -> (r: String)
        requires
            self.can_display(wire@),
        ensures
            r@ == self.wire_text(wire@),
    ;
}

/// The display line of a wire, given the rendering of its value.
pub open spec fn wire_line(name: Seq<char>, text: Seq<char>) -> Seq<char> {
    "    "@ + name + ": "@ + text
}

/// The display lines of the first `n` wires, each ended by a line break.
pub open spec fn wire_lines<WD: WireDisplayer>(locals: Seq<GraphWireView>, n: nat, wd: &WD) -> Seq<
    char,
>
    decreases n,
{
    if n == 0 {
        Seq::empty()
    } else {
        wire_lines(locals, (n - 1) as nat, wd) + wire_line(
            locals[n - 1].name,
            wd.wire_text(locals[n - 1].values),
        ) + "\n"@
    }
}

/// The display line of a child instance.
pub open spec fn instance_line(inst: GraphModuleView) -> Seq<char> {
    "    "@ + inst.module_name + "::"@ + inst.name + "\n"@
}

/// The display lines of the first `n` child instances.
pub open spec fn instance_lines(instances: Seq<GraphModuleView>, n: nat) -> Seq<char>
    decreases n,
{
    if n == 0 {
        Seq::empty()
    } else {
        instance_lines(instances, (n - 1) as nat) + instance_line(instances[n - 1])
    }
}

/// The wires section of a module's display.
pub open spec fn locals_text<WD: WireDisplayer>(g: GraphModuleView, wd: &WD) -> Seq<char> {
    if g.locals.len() == 0 {
        "    <none>\n"@
    } else {
        wire_lines(g.locals, g.locals.len(), wd)
    }
}

/// The instances section of a module's display.
pub open spec fn instances_text(g: GraphModuleView) -> Seq<char> {
    if g.instances.len() == 0 {
        "    <none>\n"@
    } else {
        instance_lines(g.instances, g.instances.len())
    }
}

/// The display of a module reached by the dotted path `name`; the root is
/// shown under the name `<root>`.
pub open spec fn module_display<WD: WireDisplayer>(g: GraphModuleView, name: Seq<char>, wd: &WD) -> Seq<
    char,
> {
    g.module_name + "::"@ + (if name.len() == 0 {
        "<root>"@
    } else {
        name
    }) + "\n  Wires:\n"@ + locals_text(g, wd) + "  Instances:\n"@ + instances_text(g) + "\n"@
}

/// `head` extended by one path segment.
pub open spec fn extend_head(head: Seq<char>, segment: Seq<char>) -> Seq<char> {
    if head.len() > 0 {
        head.push('.') + segment
    } else {
        segment
    }
}

/// What displaying `path` below `g` yields, where `head` is the dotted path
/// that led to `g`.
pub open spec fn path_display<WD: WireDisplayer>(
    g: GraphModuleView,
    head: Seq<char>,
    path: Seq<Seq<char>>,
    wd: &WD,
) -> Result<Seq<char>, ErrorView>
    decreases path.len(),
{
    if path.len() == 0 {
        Ok(module_display(g, head, wd))
    } else {
        match index_of(g.instance_names(), path[0]) {
            Some(i) => path_display(
                g.instances[i],
                extend_head(head, path[0]),
                path.drop_first(),
                wd,
            ),
            None => match index_of(g.local_names(), path[0]) {
                Some(i) => if path.len() == 1 {
                    Ok(wire_line(g.locals[i].name, wd.wire_text(g.locals[i].values)))
                } else {
                    Err(ErrorView::InvalidPath(missing_text(path[0], g.name)))
                },
                None => Err(ErrorView::InvalidPath(missing_text(path[0], g.name))),
            },
        }
    }
}

/// Every wire of every module in the tree can be rendered by `wd`.
pub open spec fn displayable<WD: WireDisplayer>(g: GraphModuleView, wd: &WD) -> bool
    decreases g,
{
    &&& forall|w: int| 0 <= w < g.locals.len() ==> wd.can_display((#[trigger] g.locals[w]).values)
    &&& forall|i: int| 0 <= i < g.instances.len() ==> displayable(#[trigger] g.instances[i], wd)
}

/// The view of a tree lists the views of its children.
pub proof fn lemma_graph_view(g: GraphModule)
    ensures
        g@.module_name == g.module_name@,
        g@.name == g.name@,
        g@.locals == g.locals.deep_view(),
        g@.instances.len() == g.instances@.len(),
        forall|i: int| 0 <= i < g.instances@.len() ==> (#[trigger] g@.instances[i]) == g.instances@[i]@,
        g@.instances == graphs_view(g.instances@),
{
    assert(g@.instances =~= graphs_view(g.instances@));
}

/// The error for a segment that names nothing.
fn missing(field: &String, module: &String) -> (r: Error)
    ensures
        r@ == ErrorView::InvalidPath(missing_text(field@, module@)),
{
    let mut text = String::from_str("No field with name '");
    text.append(field.as_str());
    text.append("' in module '");
    text.append(module.as_str());
    text.append("'");
    Error::InvalidPath(text)
}

/// The rest of a path after its first segment.
fn tail<'a>(path: &'a [String]) -> (r: &'a [String])
    requires
        path@.len() > 0,
    ensures
        r@ == path@.drop_first(),
        path_view(r@) == path_view(path@).drop_first(),
{
    let r = vstd::slice::slice_subrange(path, 1, path.len());
    assert(r@ =~= path@.drop_first());
    assert(path_view(r@) =~= path_view(path@).drop_first());
    r
}

impl GraphWire {
    fn display<WD: WireDisplayer>(&self, wd: &WD) -> (r: String)
        requires
            wd.can_display(self.values@),
        ensures
            r@ == wire_line(self.name@, wd.wire_text(self.values@)),
    {
        let mut line = String::from_str("    ");
        line.append(self.name.as_str());
        line.append(": ");
        let text = wd.display_wire(self.values.as_slice());
        line.append(text.as_str());
        line
    }
}

impl GraphModule {
    /// Index of the first child instance called `name`.
    fn find_instance(&self, name: &String) -> (r: Option<usize>)
        ensures
            match r {
                Some(i) => i < self.instances.len() && index_of(self@.instance_names(), name@) == Some(
                    i as int,
                ),
                None => index_of(self@.instance_names(), name@) is None,
            },
    {
        let ghost names = self@.instance_names();
        let mut i: usize = 0;
        while i < self.instances.len()
            invariant
                i <= self.instances.len(),
                names == self@.instance_names(),
                forall|j: int| 0 <= j < i ==> names[j] != name@,
            decreases self.instances.len() - i,
        {
            proof {
                lemma_graph_view(*self);
                lemma_graph_view(self.instances@[i as int]);
            }
            if self.instances[i].name == *name {
                proof {
                    assert(names[i as int] == name@);
                    lemma_index_of_least(names, name@, i as int);
                }
                return Some(i);
            }
            assert(names[i as int] != name@);
            i += 1;
        }
        proof {
            lemma_index_of_none(names, name@);
        }
        None
    }

    /// Index of the first wire called `name`.
    fn find_local(&self, name: &String) -> (r: Option<usize>)
        ensures
            match r {
                Some(i) => i < self.locals.len() && index_of(self@.local_names(), name@) == Some(
                    i as int,
                ),
                None => index_of(self@.local_names(), name@) is None,
            },
    {
        let ghost names = self@.local_names();
        let mut i: usize = 0;
        while i < self.locals.len()
            invariant
                i <= self.locals.len(),
                names == self@.local_names(),
                forall|j: int| 0 <= j < i ==> names[j] != name@,
            decreases self.locals.len() - i,
        {
            if self.locals[i].name == *name {
                proof {
                    assert(names[i as int] == name@);
                    lemma_index_of_least(names, name@, i as int);
                }
                return Some(i);
            }
            assert(names[i as int] != name@);
            i += 1;
        }
        proof {
            lemma_index_of_none(names, name@);
        }
        None
    }

    fn display_locals<WD: WireDisplayer>(&self, wd: &WD) -> (r: String)
        requires
            displayable(self@, wd),
        ensures
            r@ == locals_text(self@, wd),
    {
        let mut lines = String::from_str("");
        proof {
            reveal_strlit("");
            assert(lines@ =~= Seq::<char>::empty());
        }
        let mut i: usize = 0;
        while i < self.locals.len()
            invariant
                i <= self.locals.len(),
                displayable(self@, wd),
                lines@ == wire_lines(self@.locals, i as nat, wd),
            decreases self.locals.len() - i,
        {
            assert(wd.can_display(self@.locals[i as int].values));
            let line = self.locals[i].display(wd);
            lines.append(line.as_str());
            lines.append("\n");
            i += 1;
        }
        if self.locals.len() == 0 {
            lines.append("    <none>\n");
            assert(lines@ =~= "    <none>\n"@);
        }
        lines
    }

    fn display_instances(&self) -> (r: String)
        ensures
            r@ == instances_text(self@),
    {
        let mut lines = String::from_str("");
        proof {
            reveal_strlit("");
            assert(lines@ =~= Seq::<char>::empty());
        }
        let mut i: usize = 0;
        while i < self.instances.len()
            invariant
                i <= self.instances.len(),
                lines@ == instance_lines(self@.instances, i as nat),
            decreases self.instances.len() - i,
        {
            let ghost before = lines@;
            proof {
                lemma_graph_view(self.instances@[i as int]);
            }
            lines.append("    ");
            lines.append(self.instances[i].module_name.as_str());
            lines.append("::");
            lines.append(self.instances[i].name.as_str());
            lines.append("\n");
            assert(lines@ =~= before + instance_line(self@.instances[i as int]));
            i += 1;
        }
        if self.instances.len() == 0 {
            lines.append("    <none>\n");
            assert(lines@ =~= "    <none>\n"@);
        }
        lines
    }

    /// Whether every bit of every wire in the tree is an index below `n`.
    #[verifier::loop_isolation(false)]
    pub fn lies_within(&self, n: usize) -> (r: bool)
        ensures
            r == self@.bounded(n as nat),
        decreases self,
    {
        proof {
            lemma_graph_view(*self);
        }
        let mut w: usize = 0;
        while w < self.locals.len()
            invariant
                w <= self.locals.len(),
                forall|x: int, b: int|
                    0 <= x < w && 0 <= b < self@.locals[x].values.len()
                        ==> #[trigger] self@.locals[x].values[b] < n,
            decreases self.locals.len() - w,
        {
            let wire = &self.locals[w];
            assert(self@.locals[w as int] == wire@);
            let mut b: usize = 0;
            while b < wire.values.len()
                invariant
                    b <= wire.values.len(),
                    forall|k: int| 0 <= k < b ==> #[trigger] wire.values@[k] < n,
                decreases wire.values.len() - b,
            {
                if wire.values[b] >= n {
                    assert(!(self@.locals[w as int].values[b as int] < n));
                    return false;
                }
                b += 1;
            }
            w += 1;
        }
        let mut i: usize = 0;
        while i < self.instances.len()
            invariant
                i <= self.instances.len(),
                self@.instances.len() == self.instances@.len(),
                forall|k: int| 0 <= k < self.instances@.len() ==> (#[trigger] self@.instances[k])
                    == self.instances@[k]@,
                forall|k: int| 0 <= k < i ==> (#[trigger] self@.instances[k]).bounded(n as nat),
            decreases self.instances.len() - i,
        {
            if !self.instances[i].lies_within(n) {
                assert(!self@.instances[i as int].bounded(n as nat));
                return false;
            }
            i += 1;
        }
        true
    }

    /// Renders this module, reached by the dotted path `name`.
    pub fn display<WD: WireDisplayer>(&self, name: String, wd: &WD) -> (r: String)
        requires
            displayable(self@, wd),
        ensures
            r@ == module_display(self@, name@, wd),
    {
        let mut text = String::from_str("");
        proof {
            reveal_strlit("");
            assert(text@ =~= Seq::<char>::empty());
        }
        text.append(self.module_name.as_str());
        text.append("::");
        if name.as_str().unicode_len() == 0 {
            text.append("<root>");
        } else {
            text.append(name.as_str());
        }
        text.append("\n  Wires:\n");
        let locals = self.display_locals(wd);
        text.append(locals.as_str());
        text.append("  Instances:\n");
        let instances = self.display_instances();
        text.append(instances.as_str());
        text.append("\n");
        assert(text@ =~= module_display(self@, name@, wd));
        text
    }

    /// Renders what `path` names below this module: a module with its wires
    /// and instances, or a wire with its value.
    pub fn display_path<WD: WireDisplayer>(&self, head: String, path: &[String], wd: &WD) -> (r:
        Result<String, Error>)
        requires
            displayable(self@, wd),
        ensures
            match r {
                Ok(text) => path_display(self@, head@, path_view(path@), wd) == Ok::<
                    Seq<char>,
                    ErrorView,
                >(text@),
                Err(e) => path_display(self@, head@, path_view(path@), wd) == Err::<
                    Seq<char>,
                    ErrorView,
                >(e@),
            },
        decreases path@.len(),
    {
        if path.len() == 0 {
            return Ok(self.display(head, wd));
        }
        let mut head = head;
        match self.find_instance(&path[0]) {
            Some(i) => {
                if head.as_str().unicode_len() > 0 {
                    push_char(&mut head, '.');
                }
                head.append(path[0].as_str());
                proof {
                    lemma_graph_view(*self);
                }
                self.instances[i].display_path(head, tail(path), wd)
            },
            None => match self.find_local(&path[0]) {
                Some(i) => {
                    if path.len() == 1 {
                        assert(wd.can_display(self@.locals[i as int].values));
                        Ok(self.locals[i].display(wd))
                    } else {
                        Err(missing(&path[0], &self.name))
                    }
                },
                None => Err(missing(&path[0], &self.name)),
            },
        }
    }

    /// Where `path` leads: the index of the wire it names in the module that
    /// holds it, for the caller to read.
    fn locate<'a>(&'a self, path: &[String]) -> (r: Result<&'a GraphWire, Error>)
        ensures
            match r {
                Ok(w) => resolve(self@, path_view(path@)) == Target::Wire(w@),
                Err(e) => match resolve(self@, path_view(path@)) {
                    Target::Wire(_) => false,
                    Target::Module(_) => e@ == ErrorView::InvalidPath(module_text()),
                    Target::Missing { field, module } => e@ == ErrorView::InvalidPath(
                        missing_text(field, module),
                    ),
                },
            },
        decreases path@.len(),
    {
        if path.len() == 0 {
            return Err(Error::InvalidPath(String::from_str("This path refers to a module")));
        }
        match self.find_instance(&path[0]) {
            Some(i) => {
                proof {
                    lemma_graph_view(*self);
                }
                self.instances[i].locate(tail(path))
            },
            None => match self.find_local(&path[0]) {
                Some(i) => {
                    if path.len() == 1 {
                        Ok(&self.locals[i])
                    } else {
                        Err(missing(&path[0], &self.name))
                    }
                },
                None => Err(missing(&path[0], &self.name)),
            },
        }
    }

    /// The netlist indices of the bits of the wire that `path` names.
    pub fn wire_addr(&self, path: &[String]) -> (r: Result<Vec<usize>, Error>)
        ensures
            match r {
                Ok(addr) => wire_addr_of(self@, path_view(path@)) == Ok::<Seq<usize>, ErrorView>(
                    addr@,
                ),
                Err(e) => wire_addr_of(self@, path_view(path@)) == Err::<Seq<usize>, ErrorView>(e@),
            },
    {
        match self.locate(path) {
            Ok(wire) => Ok(wire.values.clone()),
            Err(e) => Err(e),
        }
    }

    /// The number of bits of the wire that `path` names.
    pub fn wire_width(&self, path: &[String]) -> (r: Result<u64, Error>)
        ensures
            match r {
                Ok(width) => wire_width_of(self@, path_view(path@)) == Ok::<nat, ErrorView>(
                    width as nat,
                ),
                Err(e) => wire_width_of(self@, path_view(path@)) == Err::<nat, ErrorView>(e@),
            },
    {
        match self.locate(path) {
            Ok(wire) => Ok(wire.values.len() as u64),
            Err(e) => Err(e),
        }
    }
}

} // verus!
