//! The syntax tree as the resolvers read it: an arena of nodes, each with a
//! kind and an ordered list of children, grouped into compilation units.

use vstd::prelude::*;
use crate::res::{Module, Node, Symbol};

verus! {

/// How a function is named.
pub enum FnName {
    Regular(Symbol),
    Getter(Symbol),
    Setter(Symbol),
    /// An operator or another function that binds no name.
    Operator,
}

/// One `show` or `hide` clause of an import or export directive.
pub struct ImportFilter {
    pub hide: bool,
    pub names: Vec<Symbol>,
}

/// What a node is, with the parts that name resolution reads.
#[allow(inconsistent_fields)]
pub enum NodeKind {
    /// A class declaration. The heritage clauses are qualified-path nodes;
    /// the passes go to them from here. The children are the members and
    /// whatever else stands in the declaration; a tree may list the clauses
    /// among them as well, which changes nothing.
    Class { name: Symbol, superclass: Option<Node>, mixins: Vec<Node>, interfaces: Vec<Node> },
    /// A class that can be mixed in; it has no superclass of its own. Its
    /// clauses and children are as those of a class.
    MixinClass { name: Symbol, mixins: Vec<Node>, interfaces: Vec<Node> },
    Enum { name: Symbol },
    TypeAlias { name: Symbol },
    /// Any other top-level declaration: it holds a function or the
    /// variables of one declaration.
    Item,
    /// An included file; its children are the items of that file.
    Part,
    /// An export directive; `module` is the unit that was loaded for it.
    Export { module: Module, filters: Vec<ImportFilter> },
    /// An import directive; `module` is the unit that was loaded for it.
    Import { module: Module, filters: Vec<ImportFilter>, alias: Option<Symbol>, deferred: bool },
    /// A constructor, redirecting or not; unnamed ones bind nothing.
    Constructor { name: Option<Symbol> },
    /// Any other class member: it holds a method or the fields of one
    /// declaration.
    Member,
    /// A function; its children are its type parameters, its parameters
    /// and its body.
    Function { name: FnName },
    /// One declared variable; its children are its initializer.
    VarDef { name: Symbol },
    /// A list of type parameters.
    Generics,
    TypeParameter { name: Symbol },
    /// A part of a `try` statement, with what it catches and its block.
    TryPart,
    /// A block of statements.
    Block,
    /// A loop that declares its own loop variable.
    ForIn,
    /// A bare name used as an expression.
    Identifier { name: Symbol },
    /// A possibly prefixed name with optional type arguments.
    Qualified { name: Symbol, prefix: Option<Node>, params: Vec<Node> },
    /// Anything else; it is only walked through.
    Other,
}

/// A node of the tree.
pub struct NodeData {
    pub kind: NodeKind,
    pub children: Vec<Node>,
    /// The compilation unit the node belongs to.
    pub module: Module,
}

/// A compilation unit.
pub struct ModuleData {
    pub items: Vec<Node>,
    /// Whether loading the unit failed.
    pub has_error: bool,
}

/// Every handle in `nodes` is below `bound`.
pub open spec fn all_below(nodes: Seq<Node>, bound: int) -> bool {
    forall|j: int| 0 <= j < nodes.len() ==> (#[trigger] nodes[j]).index < bound
}

/// Every node that `kind` refers to is below `bound`.
pub open spec fn kind_below(kind: NodeKind, bound: int) -> bool {
    match kind {
        NodeKind::Class { superclass, mixins, interfaces, .. } => {
            &&& superclass matches Some(q) ==> q.index < bound
            &&& all_below(mixins@, bound)
            &&& all_below(interfaces@, bound)
        },
        NodeKind::MixinClass { mixins, interfaces, .. } => {
            &&& all_below(mixins@, bound)
            &&& all_below(interfaces@, bound)
        },
        NodeKind::Qualified { prefix, params, .. } => {
            &&& prefix matches Some(q) ==> q.index < bound
            &&& all_below(params@, bound)
        },
        _ => true,
    }
}

/// Whether every handle in `nodes` is below `bound`.
fn below(nodes: &Vec<Node>, bound: usize) -> (ok: bool)
    ensures
        ok == all_below(nodes@, bound as int),
{
    let mut i: usize = 0;
    while i < nodes.len()
        invariant
            i <= nodes.len(),
            all_below(nodes@.subrange(0, i as int), bound as int),
        decreases nodes.len() - i,
    {
        if nodes[i].index >= bound {
            return false;
        }
        assert forall|j: int| 0 <= j < i + 1 implies (#[trigger] nodes@.subrange(
            0,
            i + 1,
        )[j]).index < bound by {
            if j < i {
                assert(nodes@.subrange(0, i as int)[j] == nodes@[j]);
            }
        }
        i = i + 1;
    }
    assert(nodes@.subrange(0, i as int) =~= nodes@);
    true
}

/// Whether every node that `kind` refers to is below `bound`.
fn kind_is_below(kind: &NodeKind, bound: usize) -> (ok: bool)
    ensures
        ok == kind_below(*kind, bound as int),
{
    match kind {
        NodeKind::Class { superclass, mixins, interfaces, .. } => {
            let first = match superclass {
                Some(q) => q.index < bound,
                None => true,
            };
            first && below(mixins, bound) && below(interfaces, bound)
        },
        NodeKind::MixinClass { mixins, interfaces, .. } => {
            below(mixins, bound) && below(interfaces, bound)
        },
        NodeKind::Qualified { prefix, params, .. } => {
            let first = match prefix {
                Some(q) => q.index < bound,
                None => true,
            };
            first && below(params, bound)
        },
        _ => true,
    }
}

/// All compilation units of a program and all their nodes.
pub struct Ast {
    nodes: Vec<NodeData>,
    modules: Vec<ModuleData>,
    base: Option<Module>,
}

impl Ast {
    /// The nodes, by handle.
    pub closed spec fn nodes(&self) -> Seq<NodeData> {
        self.nodes@
    }

    /// The compilation units, by handle.
    pub closed spec fn modules(&self) -> Seq<ModuleData> {
        self.modules@
    }

    /// The unit that every other unit imports implicitly, if one was named.
    pub closed spec fn base(&self) -> Option<Module> {
        self.base
    }

    /// Whether `n` names a node of this tree.
    pub open spec fn has_node(&self, n: Node) -> bool {
        n.index < self.nodes().len()
    }

    /// Whether `m` names a unit of this tree.
    pub open spec fn has_module(&self, m: Module) -> bool {
        m.index < self.modules().len()
    }

    /// The kind of `n`; a handle that names no node counts as `Other`.
    pub open spec fn kind(&self, n: Node) -> NodeKind {
        if self.has_node(n) {
            self.nodes()[n.index as int].kind
        } else {
            NodeKind::Other
        }
    }

    /// The children of `n`, in source order.
    pub open spec fn children(&self, n: Node) -> Seq<Node> {
        if self.has_node(n) {
            self.nodes()[n.index as int].children@
        } else {
            Seq::empty()
        }
    }

    /// The heritage of `n`, if `n` is a class or a class that can be mixed
    /// in: its superclass clause, its mixin clauses and its interface
    /// clauses. Each clause is a qualified path.
    pub open spec fn heritage(&self, n: Node) -> Option<(Option<Node>, Seq<Node>, Seq<Node>)> {
        match self.kind(n) {
            NodeKind::Class { superclass, mixins, interfaces, .. } => Some(
                (superclass, mixins@, interfaces@),
            ),
            NodeKind::MixinClass { mixins, interfaces, .. } => Some((None, mixins@, interfaces@)),
            _ => None,
        }
    }

    /// The superclass clause of `n`, if `n` is a class that has one.
    pub open spec fn superclass(&self, n: Node) -> Option<Node> {
        match self.heritage(n) {
            Some((superclass, _, _)) => superclass,
            None => None,
        }
    }

    /// The unit that owns `n`.
    pub open spec fn owner(&self, n: Node) -> Option<Module> {
        if self.has_node(n) {
            Some(self.nodes()[n.index as int].module)
        } else {
            None
        }
    }

    /// The top-level items of `m`.
    pub open spec fn items(&self, m: Module) -> Seq<Node> {
        if self.has_module(m) {
            self.modules()[m.index as int].items@
        } else {
            Seq::empty()
        }
    }

    /// Whether `m` failed to load; a handle that names no unit counts as failed.
    pub open spec fn failed(&self, m: Module) -> bool {
        !self.has_module(m) || self.modules()[m.index as int].has_error
    }

    /// The tree is well founded: whatever a node refers to was added before it,
    /// and the items of every unit exist.
    pub open spec fn wf(&self) -> bool {
        &&& forall|i: int|
            0 <= i < self.nodes().len() ==> all_below(
                (#[trigger] self.nodes()[i]).children@,
                i,
            ) && kind_below(self.nodes()[i].kind, i)
        &&& forall|m: int|
            0 <= m < self.modules().len() ==> all_below(
                (#[trigger] self.modules()[m]).items@,
                self.nodes().len() as int,
            )
    }

    /// How deeply computations of export tables may nest when a pass is
    /// started from outside: as deep as there are nodes and units.
    pub open spec fn depth_limit(&self) -> nat {
        self.nodes().len() + self.modules().len()
    }

    /// A tree has no more nodes, and no more units, than can be counted.
    pub(crate) proof fn lemma_sizes(&self)
        ensures
            self.nodes().len() <= usize::MAX,
            self.modules().len() <= usize::MAX,
    {
        assert(self.nodes.len() == self.nodes@.len());
        assert(self.modules.len() == self.modules@.len());
    }

    /// In a well-founded tree every child of a node, and every node that its
    /// kind refers to, was added before the node: the passes over the tree
    /// pass over none of them.
    pub proof fn lemma_children_below(&self, n: Node)
        requires
            self.wf(),
            self.has_node(n),
        ensures
            all_below(self.children(n), n.index as int),
            kind_below(self.kind(n), n.index as int),
    {
        assert(all_below(self.nodes()[n.index as int].children@, n.index as int));
    }

    /// In a well-founded tree every item of a unit is a node of the tree.
    pub proof fn lemma_items_below(&self, m: Module)
        requires
            self.wf(),
        ensures
            all_below(self.items(m), self.nodes().len() as int),
    {
        if self.has_module(m) {
            assert(all_below(self.modules()[m.index as int].items@, self.nodes().len() as int));
        }
    }

    /// A tree without nodes and units.
    pub fn new() -> (ast: Ast)
        ensures
            ast.wf(),
            ast.nodes().len() == 0,
            ast.modules().len() == 0,
            ast.base() is None,
    {
        Ast { nodes: Vec::new(), modules: Vec::new(), base: None }
    }

    /// The number of nodes.
    pub fn node_count(&self) -> (n: usize)
        ensures
            n == self.nodes().len(),
    {
        self.nodes.len()
    }

    /// The number of units.
    pub fn module_count(&self) -> (n: usize)
        ensures
            n == self.modules().len(),
    {
        self.modules.len()
    }

    /// The nesting depth that a pass started from outside works with.
    pub fn nesting_limit(&self) -> (limit: u128)
        ensures
            limit == self.depth_limit(),
    {
        self.nodes.len() as u128 + self.modules.len() as u128
    }

    /// The node behind a handle, if there is one.
    pub fn node(&self, n: Node) -> (data: Option<&NodeData>)
        ensures
            data is Some == self.has_node(n),
            data matches Some(d) ==> *d == self.nodes()[n.index as int],
    {
        if n.index < self.nodes.len() {
            Some(&self.nodes[n.index])
        } else {
            None
        }
    }

    /// The heritage clauses of `n`, if `n` is a class or a class that can be
    /// mixed in.
    pub fn clauses(&self, n: Node) -> (found: Option<(Option<Node>, &Vec<Node>, &Vec<Node>)>)
        ensures
            match found {
                Some((superclass, mixins, interfaces)) => self.heritage(n) == Some(
                    (superclass, mixins@, interfaces@),
                ),
                None => self.heritage(n) is None,
            },
    {
        if n.index < self.nodes.len() {
            match &self.nodes[n.index].kind {
                NodeKind::Class { superclass, mixins, interfaces, .. } => Some(
                    (*superclass, mixins, interfaces),
                ),
                NodeKind::MixinClass { mixins, interfaces, .. } => Some((None, mixins, interfaces)),
                _ => None,
            }
        } else {
            None
        }
    }

    /// The unit behind a handle, if there is one.
    pub fn module(&self, m: Module) -> (data: Option<&ModuleData>)
        ensures
            data is Some == self.has_module(m),
            data matches Some(d) ==> *d == self.modules()[m.index as int],
    {
        if m.index < self.modules.len() {
            Some(&self.modules[m.index])
        } else {
            None
        }
    }

    /// The implicitly imported unit, if one was named.
    pub fn base_module(&self) -> (base: Option<Module>)
        ensures
            base == self.base(),
    {
        self.base
    }

    /// Names the unit that every other unit imports implicitly.
    pub fn set_base(&mut self, module: Module)
        ensures
            final(self).base() == Some(module),
            final(self).nodes() == old(self).nodes(),
            final(self).modules() == old(self).modules(),
    {
        self.base = Some(module);
    }

    /// Adds a unit without items.
    pub fn add_module(&mut self, has_error: bool) -> (module: Module)
        ensures
            module.index == old(self).modules().len(),
            final(self).modules().len() == old(self).modules().len() + 1,
            forall|m: int|
                0 <= m < old(self).modules().len() ==> final(self).modules()[m]
                    == old(self).modules()[m],
            final(self).items(module) == Seq::<Node>::empty(),
            final(self).failed(module) == has_error,
            final(self).nodes() == old(self).nodes(),
            final(self).base() == old(self).base(),
            old(self).wf() ==> final(self).wf(),
    {
        let module = Module { index: self.modules.len() };
        self.modules.push(ModuleData { items: Vec::new(), has_error });
        module
    }

    /// Notes that loading `module` failed. Nothing changes when the unit is
    /// not there.
    pub fn mark_failed(&mut self, module: Module) -> (done: bool)
        ensures
            done == old(self).has_module(module),
            done ==> final(self).failed(module),
            done ==> final(self).items(module) == old(self).items(module),
            !done ==> final(self).modules() == old(self).modules(),
            final(self).modules().len() == old(self).modules().len(),
            forall|m: int|
                0 <= m < old(self).modules().len() && m != module.index ==> final(self).modules()[m]
                    == old(self).modules()[m],
            final(self).nodes() == old(self).nodes(),
            final(self).base() == old(self).base(),
            old(self).wf() ==> final(self).wf(),
    {
        if module.index >= self.modules.len() {
            return false;
        }
        self.modules[module.index].has_error = true;
        true
    }

    /// Adds a node to `module`. Everything the node refers to must be in the
    /// tree already; if something is not, nothing is added.
    pub fn add_node(&mut self, module: Module, kind: NodeKind, children: Vec<Node>) -> (added:
        Option<Node>)
        ensures
            added is Some <==> all_below(children@, old(self).nodes().len() as int) && kind_below(
                kind,
                old(self).nodes().len() as int,
            ),
            added matches Some(n) ==> n.index == old(self).nodes().len() && final(self).nodes()
                == old(self).nodes().push((NodeData { kind, children, module })),
            added is None ==> final(self).nodes() == old(self).nodes(),
            final(self).modules() == old(self).modules(),
            final(self).base() == old(self).base(),
            old(self).wf() ==> final(self).wf(),
    {
        let bound = self.nodes.len();
        if !below(&children, bound) || !kind_is_below(&kind, bound) {
            return None;
        }
        self.nodes.push(NodeData { kind, children, module });
        proof {
            if old(self).wf() {
                assert forall|i: int| 0 <= i < self.nodes().len() implies all_below(
                    (#[trigger] self.nodes()[i]).children@,
                    i,
                ) && kind_below(self.nodes()[i].kind, i) by {
                    if i < bound {
                        assert(self.nodes()[i] == old(self).nodes()[i]);
                    }
                }
                assert forall|m: int| 0 <= m < self.modules().len() implies all_below(
                    (#[trigger] self.modules()[m]).items@,
                    self.nodes().len() as int,
                ) by {
                    assert(all_below(old(self).modules()[m].items@, bound as int));
                }
            }
        }
        Some(Node { index: bound })
    }

    /// Makes `items` the top-level items of `module`. The unit and every item
    /// must exist; if one does not, nothing changes.
    pub fn set_items(&mut self, module: Module, items: Vec<Node>) -> (done: bool)
        ensures
            done == (old(self).has_module(module) && all_below(
                items@,
                old(self).nodes().len() as int,
            )),
            done ==> final(self).items(module) == items@,
            done ==> final(self).failed(module) == old(self).failed(module),
            !done ==> final(self).modules() == old(self).modules(),
            final(self).modules().len() == old(self).modules().len(),
            forall|m: int|
                0 <= m < old(self).modules().len() && m != module.index ==> final(self).modules()[m]
                    == old(self).modules()[m],
            final(self).nodes() == old(self).nodes(),
            final(self).base() == old(self).base(),
            old(self).wf() ==> final(self).wf(),
    {
        if module.index >= self.modules.len() || !below(&items, self.nodes.len()) {
            return false;
        }
        let has_error = self.modules[module.index].has_error;
        self.modules[module.index] = ModuleData { items, has_error };
        true
    }
}

} // verus!
