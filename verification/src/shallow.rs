//! The shallow pass: it resolves qualified paths, the names of types, against
//! the flat scope of a unit and opens no nested scope. A path that it cannot
//! resolve stays without a result, so that a later pass may try again.
//!
//! The heritage clauses of a class are resolved wherever the pass comes to
//! the class, whether or not the tree lists them among the children of the
//! class as well.

use vstd::prelude::*;
use crate::analysis::{
    lemma_kept_trans, lemma_units_added_trans, lemma_units_blamed_trans, Analysis, State,
};
use crate::ast::{Ast, ImportFilter, NodeKind};
use crate::collect::{
    lemma_within_trans, module_exports_within, spec_collect_all, spec_import,
    spec_module_exports, within_limit, Collector, CollectorView,
};
use crate::res::{Module, Node, Res, Symbol};
use crate::scope::{lookup_in, Frame, ScopeChain};

verus! {

/// `after` came from `before` by resolving qualified paths below `bound`:
/// nothing that `before` held was lost or changed, every node that got a
/// result is a qualified path with a handle below `bound`, and where `depth`
/// was enough the nesting limit was not reached.
pub open spec fn paths_settled(
    ast: &Ast,
    before: State,
    after: State,
    bound: nat,
    depth: nat,
) -> bool {
    &&& before.kept_by(after)
    &&& forall|k: usize| #[trigger]
        after.res.contains_key(k) && !before.res.contains_key(k) ==> k < bound && ast.kind(
            Node { index: k },
        ) is Qualified
    &&& within_limit(ast, before, after, depth)
}

/// Settling paths composes; adding tables of units settles no path.
pub(crate) proof fn lemma_paths_settled_trans(
    ast: &Ast,
    a: State,
    b: State,
    c: State,
    first: nat,
    second: nat,
    depth: nat,
)
    requires
        paths_settled(ast, a, b, first, depth),
        paths_settled(ast, b, c, second, depth) || (b.units_added(c) && within_limit(
            ast,
            b,
            c,
            depth,
        )),
    ensures
        paths_settled(ast, a, c, if first <= second { second } else { first }, depth),
{
    if b.units_added(c) {
        lemma_units_added_trans(b, c, c);
    }
    lemma_kept_trans(a, b, c);
    lemma_within_trans(ast, a, b, c, depth);
    let bound = if first <= second { second } else { first };
    assert forall|k: usize| #[trigger]
        c.res.contains_key(k) && !a.res.contains_key(k) implies k < bound && ast.kind(
        Node { index: k },
    ) is Qualified by {
        if !b.res.contains_key(k) {
            assert(c.res.contains_key(k) && !b.res.contains_key(k));
        }
    }
}

/// The name of `q`, if `q` is a qualified path without prefix.
pub open spec fn bare_name(ast: &Ast, q: Node) -> Option<Symbol> {
    match ast.kind(q) {
        NodeKind::Qualified { name, prefix: None, .. } => Some(name),
        _ => None,
    }
}

/// Whether `q` is a qualified path without prefix whose name `frames` bind
/// to something other than `Res::Error`.
pub open spec fn resolvable(ast: &Ast, frames: Seq<Frame>, q: Node) -> bool {
    bare_name(ast, q) is Some && lookup_in(frames, bare_name(ast, q)->0) != Res::Error
}

/// Whether `q` is a heritage clause of `n`: its superclass clause, one of
/// its mixin clauses or one of its interface clauses, added before `n`.
pub open spec fn clause_of(ast: &Ast, n: Node, q: Node) -> bool {
    q.index < n.index && match ast.heritage(n) {
        Some((superclass, mixins, interfaces)) => superclass == Some(q) || mixins.contains(q)
            || interfaces.contains(q),
        None => false,
    }
}

/// `after` came from `before` by a run of the shallow pass with the scope
/// `frames`: a path without prefix that got a result got what its name
/// denotes in `frames`, and no diagnostic was raised but about the export
/// table of a unit.
pub open spec fn rightly_settled(
    ast: &Ast,
    frames: Seq<Frame>,
    before: State,
    after: State,
) -> bool {
    &&& forall|k: usize| #[trigger]
        after.res.contains_key(k) && !before.res.contains_key(k) && bare_name(
            ast,
            Node { index: k },
        ) is Some ==> after.res[k] == lookup_in(frames, bare_name(ast, Node { index: k })->0)
    &&& before.units_blamed(after)
}

/// Whether the shallow pass, started at `from`, goes down to `to` through
/// children: as into the items of a part, or the members of a class. It
/// does not go below a qualified path in this way.
pub open spec fn goes(ast: &Ast, from: Node, to: Node) -> bool
    decreases from.index,
{
    ||| from == to
    ||| !(ast.kind(from) is Qualified) && exists|j: int|
        0 <= j < ast.children(from).len() && ast.children(from)[j].index < from.index && goes(
            ast,
            #[trigger] ast.children(from)[j],
            to,
        )
}

/// The shallow pass has settled `n`: if `n` is a path without prefix that
/// `frames` can resolve, it has a result, and so has every such path among
/// the heritage clauses of `n`.
pub open spec fn settled_at(ast: &Ast, frames: Seq<Frame>, st: State, n: Node) -> bool {
    &&& resolvable(ast, frames, n) ==> st.res.contains_key(n.index)
    &&& forall|q: Node| #[trigger]
        clause_of(ast, n, q) && resolvable(ast, frames, q) ==> st.res.contains_key(q.index)
}

/// The shallow pass has been at `n`: it has settled every node that it goes
/// down to from `n`.
pub open spec fn reached(ast: &Ast, frames: Seq<Frame>, st: State, n: Node) -> bool {
    forall|m: Node| #[trigger] goes(ast, n, m) ==> settled_at(ast, frames, st, m)
}

/// The shallow pass has been at each of `nodes[..upto]` that is below `bound`.
pub open spec fn reached_upto(
    ast: &Ast,
    frames: Seq<Frame>,
    st: State,
    nodes: Seq<Node>,
    upto: int,
    bound: nat,
) -> bool {
    forall|j: int|
        0 <= j < upto && j < nodes.len() && (#[trigger] nodes[j]).index < bound ==> reached(
            ast,
            frames,
            st,
            nodes[j],
        )
}

/// Steps of the shallow pass compose; adding tables of units is such a step.
pub(crate) proof fn lemma_shallow_trans(
    ast: &Ast,
    frames: Seq<Frame>,
    a: State,
    b: State,
    c: State,
    first: nat,
    second: nat,
    depth: nat,
)
    requires
        paths_settled(ast, a, b, first, depth),
        rightly_settled(ast, frames, a, b),
        (paths_settled(ast, b, c, second, depth) && rightly_settled(ast, frames, b, c)) || (
        b.units_added(c) && within_limit(ast, b, c, depth)),
    ensures
        paths_settled(ast, a, c, if first <= second { second } else { first }, depth),
        rightly_settled(ast, frames, a, c),
{
    lemma_paths_settled_trans(ast, a, b, c, first, second, depth);
    if b.units_added(c) {
        lemma_units_added_trans(b, c, c);
    }
    lemma_units_blamed_trans(a, b, c);
    assert forall|k: usize| #[trigger]
        c.res.contains_key(k) && !a.res.contains_key(k) && bare_name(ast, Node { index: k })
            is Some implies c.res[k] == lookup_in(frames, bare_name(ast, Node { index: k })->0) by {
        if b.res.contains_key(k) {
            assert(b.res.dom().contains(k));
            assert(c.res[k] == b.res[k]);
        } else {
            assert(c.res.contains_key(k) && !b.res.contains_key(k));
        }
    }
}

/// Where the shallow pass has been, it has been for good.
pub(crate) proof fn lemma_reached_kept(
    ast: &Ast,
    frames: Seq<Frame>,
    a: State,
    b: State,
    nodes: Seq<Node>,
    upto: int,
    bound: nat,
)
    requires
        reached_upto(ast, frames, a, nodes, upto, bound),
        a.kept_by(b),
    ensures
        reached_upto(ast, frames, b, nodes, upto, bound),
{
    assert forall|j: int|
        0 <= j < upto && j < nodes.len() && (#[trigger] nodes[j]).index < bound implies reached(
        ast,
        frames,
        b,
        nodes[j],
    ) by {
        assert(reached(ast, frames, a, nodes[j]));
        assert forall|m: Node| #[trigger] goes(ast, nodes[j], m) implies settled_at(
            ast,
            frames,
            b,
            m,
        ) by {
            lemma_settled_kept(ast, frames, a, b, m);
        }
    }
}

/// What the shallow pass has settled stays settled.
pub(crate) proof fn lemma_settled_kept(ast: &Ast, frames: Seq<Frame>, a: State, b: State, n: Node)
    requires
        settled_at(ast, frames, a, n),
        a.kept_by(b),
    ensures
        settled_at(ast, frames, b, n),
{
    if resolvable(ast, frames, n) {
        assert(a.res.dom().contains(n.index));
    }
    assert forall|q: Node| #[trigger]
        clause_of(ast, n, q) && resolvable(ast, frames, q) implies b.res.contains_key(
        q.index,
    ) by {
        assert(a.res.dom().contains(q.index));
    }
}

/// A node that is settled and whose children the pass has been at is a node
/// that the pass has been at.
pub(crate) proof fn lemma_children_reached(ast: &Ast, frames: Seq<Frame>, st: State, n: Node)
    requires
        settled_at(ast, frames, st, n),
        reached_upto(
            ast,
            frames,
            st,
            ast.children(n),
            ast.children(n).len() as int,
            n.index as nat,
        ),
    ensures
        reached(ast, frames, st, n),
{
    assert forall|m: Node| #[trigger] goes(ast, n, m) implies settled_at(ast, frames, st, m) by {
        if n != m {
            let j = choose|j: int|
                0 <= j < ast.children(n).len() && ast.children(n)[j].index < n.index && goes(
                    ast,
                    #[trigger] ast.children(n)[j],
                    m,
                );
            assert(reached(ast, frames, st, ast.children(n)[j]));
        }
    }
}

/// What `name` denotes in the export table of the unit `m`; `Res::Error`
/// when the table cannot be had.
pub open spec fn spec_module_member(ast: &Ast, st: State, m: Module, name: Symbol, depth: nat) -> (
    Res,
    State,
) {
    let (table, done) = spec_module_exports(ast, st, m, depth);
    match table {
        Some(frames) => (lookup_in(frames, name), done),
        None => (Res::Error, done),
    }
}

/// The shallow pass on one qualified path. Its type arguments are visited
/// first. A path that has a result is left alone. A path with a prefix
/// resolves through the export table of the unit that the prefix denotes,
/// and to nothing when the prefix denotes no unit; a bare name resolves in
/// `frames`. Only a result other than `Res::Error` is attached.
pub open spec fn spec_shallow_qualified(
    ast: &Ast,
    frames: Seq<Frame>,
    st: State,
    n: Node,
    depth: nat,
) -> State
    decreases n.index + 1, 0nat,
{
    match ast.kind(n) {
        NodeKind::Qualified { name, prefix, params } => {
            let st1 = spec_shallow_visit_all(ast, frames, st, params@, 0, n.index as nat, depth);
            if st1.res_of(n) is Some {
                st1
            } else {
                let (res, st2) = match prefix {
                    Some(p) => {
                        let st_p = if p.index < n.index {
                            spec_shallow_visit(ast, frames, st1, p, depth)
                        } else {
                            st1
                        };
                        match st_p.res_of(p) {
                            Some(Res::Module(m)) => spec_module_member(ast, st_p, m, name, depth),
                            _ => (Res::Error, st_p),
                        }
                    },
                    None => (lookup_in(frames, name), st1),
                };
                if res == Res::Error {
                    st2
                } else {
                    st2.attach(n, res)
                }
            }
        },
        _ => st,
    }
}

/// The shallow pass on the heritage of `n`: the superclass clause, then the
/// mixin clauses, then the interface clauses. A node that is no class has
/// none.
pub open spec fn spec_shallow_heritage(
    ast: &Ast,
    frames: Seq<Frame>,
    st: State,
    n: Node,
    depth: nat,
) -> State
    decreases n.index + 1, 0nat,
{
    match ast.heritage(n) {
        Some((superclass, mixins, interfaces)) => {
            let st1 = match superclass {
                Some(q) => if q.index < n.index {
                    spec_shallow_visit(ast, frames, st, q, depth)
                } else {
                    st
                },
                None => st,
            };
            let st2 = spec_shallow_visit_all(ast, frames, st1, mixins, 0, n.index as nat, depth);
            spec_shallow_visit_all(ast, frames, st2, interfaces, 0, n.index as nat, depth)
        },
        None => st,
    }
}

/// The shallow pass on one node: a qualified path is resolved; of any other
/// node first the heritage clauses are resolved, whether or not they stand
/// among its children, and then the children are walked through.
pub open spec fn spec_shallow_visit(
    ast: &Ast,
    frames: Seq<Frame>,
    st: State,
    n: Node,
    depth: nat,
) -> State
    decreases n.index + 1, 1nat,
{
    match ast.kind(n) {
        NodeKind::Qualified { .. } => spec_shallow_qualified(ast, frames, st, n, depth),
        _ => spec_shallow_visit_all(
            ast,
            frames,
            spec_shallow_heritage(ast, frames, st, n, depth),
            ast.children(n),
            0,
            n.index as nat,
            depth,
        ),
    }
}

/// The shallow pass on `nodes[i..]`, in order. A handle at or above `bound`
/// is passed over.
pub open spec fn spec_shallow_visit_all(
    ast: &Ast,
    frames: Seq<Frame>,
    st: State,
    nodes: Seq<Node>,
    i: int,
    bound: nat,
    depth: nat,
) -> State
    decreases bound, nodes.len() - i + 2,
{
    if 0 <= i < nodes.len() {
        if nodes[i].index < bound {
            let st1 = spec_shallow_visit(ast, frames, st, nodes[i], depth);
            spec_shallow_visit_all(ast, frames, st1, nodes, i + 1, bound, depth)
        } else {
            spec_shallow_visit_all(ast, frames, st, nodes, i + 1, bound, depth)
        }
    } else {
        st
    }
}

/// The scope of a unit before anything nested is opened: the built-in names,
/// the export table of the implicitly imported unit (unless `module` is that
/// unit), and what the items of `module` declare and import.
pub open spec fn spec_collect_unit(ast: &Ast, st: State, module: Module, depth: nat) -> (
    CollectorView,
    State,
) {
    let (cv, st1) = match ast.base() {
        Some(base) => if base != module {
            spec_import(
                ast,
                CollectorView::initial(),
                st,
                base,
                Seq::<ImportFilter>::empty(),
                None,
                depth,
            )
        } else {
            (CollectorView::initial(), st)
        },
        None => (CollectorView::initial(), st),
    };
    spec_collect_all(ast, cv, st1, ast.items(module), 0, ast.nodes().len(), depth)
}

/// The state after collecting `module` and running the shallow pass over
/// its items. When an imported unit had failed to load, the shallow pass
/// does not run.
pub open spec fn spec_resolve_types(ast: &Ast, st: State, module: Module, depth: nat) -> State {
    let (cv, st1) = spec_collect_unit(ast, st, module, depth);
    if cv.has_error {
        st1
    } else {
        spec_shallow_visit_all(ast, cv.frames, st1, ast.items(module), 0, ast.nodes().len(), depth)
    }
}

/// What `name` denotes in the export table of `module`.
pub fn module_member(
    module: Module,
    ast: &Ast,
    an: &mut Analysis,
    name: Symbol,
    depth: u128,
) -> (res: Res)
    ensures
        (res, final(an)@) == spec_module_member(ast, old(an)@, module, name, depth as nat),
        old(an)@.units_added(final(an)@),
        within_limit(ast, old(an)@, final(an)@, depth as nat),
{
    match module_exports_within(module, ast, an, depth) {
        Some(table) => table.lookup(name),
        None => Res::Error,
    }
}

/// Runs the shallow pass on one qualified path, as `spec_shallow_qualified`
/// says. A path without prefix whose name the scope binds to something
/// other than `Res::Error` has a result afterwards.
pub fn shallow_qualified(scope: &ScopeChain, ast: &Ast, an: &mut Analysis, n: Node, depth: u128)
    ensures
        final(an)@ == spec_shallow_qualified(ast, scope@, old(an)@, n, depth as nat),
        paths_settled(ast, old(an)@, final(an)@, (n.index + 1) as nat, depth as nat),
        final(an)@.classes == old(an)@.classes,
        rightly_settled(ast, scope@, old(an)@, final(an)@),
        resolvable(ast, scope@, n) ==> final(an)@.res.contains_key(n.index),
    decreases n.index + 1, 0nat,
{
    proof {
        lemma_units_added_trans(an@, an@, an@);
    }
    if let Some(data) = ast.node(n) {
        if let NodeKind::Qualified { name, prefix, params } = &data.kind {
            shallow_visit_all(scope, ast, an, params, n.index, depth);
            if an.res(n).is_some() {
                return ;
            }
            let ghost after_params = an@;
            let res = match prefix {
                Some(p) => {
                    if p.index < n.index {
                        shallow_visit(scope, ast, an, *p, depth);
                    }
                    let ghost after_prefix = an@;
                    proof {
                        if p.index < n.index {
                            lemma_shallow_trans(
                                ast,
                                scope@,
                                old(an)@,
                                after_params,
                                an@,
                                n.index as nat,
                                (p.index + 1) as nat,
                                depth as nat,
                            );
                        }
                    }
                    match an.res(*p) {
                        Some(Res::Module(m)) => {
                            let member = module_member(m, ast, an, *name, depth);
                            proof {
                                lemma_shallow_trans(
                                    ast,
                                    scope@,
                                    old(an)@,
                                    after_prefix,
                                    an@,
                                    n.index as nat,
                                    0,
                                    depth as nat,
                                );
                            }
                            member
                        },
                        _ => Res::Error,
                    }
                },
                None => scope.lookup(*name),
            };
            if res != Res::Error {
                let ghost before = an@;
                an.attach(n, res);
                proof {
                    assert(paths_settled(ast, before, an@, (n.index + 1) as nat, depth as nat));
                    assert(rightly_settled(ast, scope@, before, an@));
                    lemma_shallow_trans(
                        ast,
                        scope@,
                        old(an)@,
                        before,
                        an@,
                        n.index as nat,
                        (n.index + 1) as nat,
                        depth as nat,
                    );
                }
            }
        }
    }
}

/// Runs the shallow pass on the heritage clauses of `n`, as
/// `spec_shallow_heritage` says.
pub fn shallow_heritage(scope: &ScopeChain, ast: &Ast, an: &mut Analysis, n: Node, depth: u128)
    ensures
        final(an)@ == spec_shallow_heritage(ast, scope@, old(an)@, n, depth as nat),
        paths_settled(ast, old(an)@, final(an)@, n.index as nat, depth as nat),
        final(an)@.classes == old(an)@.classes,
        rightly_settled(ast, scope@, old(an)@, final(an)@),
        forall|q: Node| #[trigger]
            clause_of(ast, n, q) && resolvable(ast, scope@, q) ==> final(an)@.res.contains_key(
                q.index,
            ),
    decreases n.index + 1, 0nat,
{
    proof {
        lemma_units_added_trans(an@, an@, an@);
    }
    if let Some((superclass, mixins, interfaces)) = ast.clauses(n) {
        if let Some(q) = superclass {
            if q.index < n.index {
                shallow_visit(scope, ast, an, q, depth);
            }
        }
        let ghost s1 = an@;
        shallow_visit_all(scope, ast, an, mixins, n.index, depth);
        let ghost s2 = an@;
        shallow_visit_all(scope, ast, an, interfaces, n.index, depth);
        proof {
            let bound = n.index as nat;
            lemma_shallow_trans(ast, scope@, old(an)@, s1, s2, bound, bound, depth as nat);
            lemma_shallow_trans(ast, scope@, old(an)@, s2, an@, bound, bound, depth as nat);
            lemma_kept_trans(s1, s2, an@);
            lemma_reached_kept(ast, scope@, s2, an@, mixins@, mixins.len() as int, bound);
            assert forall|q: Node| #[trigger]
                clause_of(ast, n, q) && resolvable(ast, scope@, q) implies an@.res.contains_key(
                q.index,
            ) by {
                assert(goes(ast, q, q));
                if superclass == Some(q) {
                    assert(settled_at(ast, scope@, s1, q));
                    assert(s1.res.dom().contains(q.index));
                } else if mixins@.contains(q) {
                    let j = choose|j: int| 0 <= j < mixins@.len() && mixins@[j] == q;
                    assert(reached(ast, scope@, an@, mixins@[j]));
                    assert(settled_at(ast, scope@, an@, q));
                } else {
                    let j = choose|j: int| 0 <= j < interfaces@.len() && interfaces@[j] == q;
                    assert(reached(ast, scope@, an@, interfaces@[j]));
                    assert(settled_at(ast, scope@, an@, q));
                }
            }
        }
    }
}

/// Runs the shallow pass on one node, as `spec_shallow_visit` says.
/// Afterwards the pass has been at `n`, as `reached` says.
pub fn shallow_visit(scope: &ScopeChain, ast: &Ast, an: &mut Analysis, n: Node, depth: u128)
    ensures
        final(an)@ == spec_shallow_visit(ast, scope@, old(an)@, n, depth as nat),
        paths_settled(ast, old(an)@, final(an)@, (n.index + 1) as nat, depth as nat),
        final(an)@.classes == old(an)@.classes,
        rightly_settled(ast, scope@, old(an)@, final(an)@),
        reached(ast, scope@, final(an)@, n),
    decreases n.index + 1, 1nat,
{
    proof {
        lemma_units_added_trans(an@, an@, an@);
    }
    if let Some(data) = ast.node(n) {
        match &data.kind {
            NodeKind::Qualified { .. } => {
                shallow_qualified(scope, ast, an, n, depth);
            },
            _ => {
                shallow_heritage(scope, ast, an, n, depth);
                let ghost clauses_done = an@;
                shallow_visit_all(scope, ast, an, &data.children, n.index, depth);
                proof {
                    lemma_shallow_trans(
                        ast,
                        scope@,
                        old(an)@,
                        clauses_done,
                        an@,
                        n.index as nat,
                        n.index as nat,
                        depth as nat,
                    );
                    assert forall|q: Node| #[trigger]
                        clause_of(ast, n, q) && resolvable(
                            ast,
                            scope@,
                            q,
                        ) implies an@.res.contains_key(q.index) by {
                        assert(clauses_done.res.dom().contains(q.index));
                    }
                    lemma_children_reached(ast, scope@, an@, n);
                }
            },
        }
    } else {
        proof {
            lemma_children_reached(ast, scope@, an@, n);
        }
    }
}

/// Runs the shallow pass on `nodes`, in order, as `spec_shallow_visit_all`
/// says. Afterwards the pass has been at each of them that is below `bound`.
pub fn shallow_visit_all(
    scope: &ScopeChain,
    ast: &Ast,
    an: &mut Analysis,
    nodes: &Vec<Node>,
    bound: usize,
    depth: u128,
)
    ensures
        final(an)@ == spec_shallow_visit_all(
            ast,
            scope@,
            old(an)@,
            nodes@,
            0,
            bound as nat,
            depth as nat,
        ),
        paths_settled(ast, old(an)@, final(an)@, bound as nat, depth as nat),
        final(an)@.classes == old(an)@.classes,
        rightly_settled(ast, scope@, old(an)@, final(an)@),
        reached_upto(ast, scope@, final(an)@, nodes@, nodes.len() as int, bound as nat),
    decreases bound, nodes.len() + 2,
{
    proof {
        lemma_units_added_trans(an@, an@, an@);
    }
    let mut i: usize = 0;
    while i < nodes.len()
        invariant
            i <= nodes.len(),
            paths_settled(ast, old(an)@, an@, bound as nat, depth as nat),
            an@.classes == old(an)@.classes,
            rightly_settled(ast, scope@, old(an)@, an@),
            reached_upto(ast, scope@, an@, nodes@, i as int, bound as nat),
            spec_shallow_visit_all(ast, scope@, an@, nodes@, i as int, bound as nat, depth as nat)
                == spec_shallow_visit_all(
                ast,
                scope@,
                old(an)@,
                nodes@,
                0,
                bound as nat,
                depth as nat,
            ),
        decreases nodes.len() - i,
    {
        let ghost before = an@;
        if nodes[i].index < bound {
            shallow_visit(scope, ast, an, nodes[i], depth);
            proof {
                lemma_shallow_trans(
                    ast,
                    scope@,
                    old(an)@,
                    before,
                    an@,
                    bound as nat,
                    (nodes[i as int].index + 1) as nat,
                    depth as nat,
                );
                lemma_reached_kept(ast, scope@, before, an@, nodes@, i as int, bound as nat);
            }
        }
        i = i + 1;
    }
}

/// Collects the scope of `module`, as `spec_collect_unit` says.
pub fn collect_unit(ast: &Ast, an: &mut Analysis, module: Module, depth: u128) -> (collector:
    Collector)
    ensures
        (collector@, final(an)@) == spec_collect_unit(ast, old(an)@, module, depth as nat),
        old(an)@.units_added(final(an)@),
        within_limit(ast, old(an)@, final(an)@, depth as nat),
{
    proof {
        lemma_units_added_trans(an@, an@, an@);
    }
    let mut collector = Collector::new();
    if let Some(base) = ast.base_module() {
        if base != module {
            let none: Vec<ImportFilter> = Vec::new();
            collector.import_within(ast, an, base, &none, None, depth);
        }
    }
    let ghost imported = an@;
    match ast.module(module) {
        Some(data) => {
            collector.collect_all(ast, an, &data.items, ast.node_count(), depth);
        },
        None => {
            assert(ast.items(module).len() == 0);
        },
    }
    proof {
        lemma_units_added_trans(old(an)@, imported, an@);
        lemma_units_added_trans(imported, an@, an@);
        lemma_within_trans(ast, old(an)@, imported, an@, depth as nat);
    }
    collector
}

/// Collects `module` and runs the shallow pass over it, as
/// `spec_resolve_types` says. The collector is handed back for a pass that
/// goes on from here.
///
/// Unless a unit that `module` imports had failed to load, the pass has
/// been at every item of the unit: every heritage clause without prefix
/// that the scope of the unit can resolve has a result. What got a result
/// got what its name denotes in that scope.
pub fn resolve_types(ast: &Ast, an: &mut Analysis, module: Module, depth: u128) -> (collector:
    Collector)
    ensures
        collector@ == spec_collect_unit(ast, old(an)@, module, depth as nat).0,
        final(an)@ == spec_resolve_types(ast, old(an)@, module, depth as nat),
        collector@.has_error ==> old(an)@.units_added(final(an)@),
        paths_settled(ast, old(an)@, final(an)@, ast.nodes().len(), depth as nat),
        final(an)@.classes == old(an)@.classes,
        rightly_settled(ast, collector@.frames, old(an)@, final(an)@),
        !collector@.has_error ==> reached_upto(
            ast,
            collector@.frames,
            final(an)@,
            ast.items(module),
            ast.items(module).len() as int,
            ast.nodes().len(),
        ),
{
    let collector = collect_unit(ast, an, module, depth);
    let ghost collected = an@;
    proof {
        lemma_units_added_trans(old(an)@, an@, an@);
    }
    if collector.has_error() {
        return collector;
    }
    match ast.module(module) {
        Some(data) => {
            shallow_visit_all(collector.scope(), ast, an, &data.items, ast.node_count(), depth);
        },
        None => {
            assert(ast.items(module).len() == 0);
        },
    }
    proof {
        lemma_kept_trans(old(an)@, collected, an@);
        lemma_within_trans(ast, old(an)@, collected, an@, depth as nat);
        lemma_units_blamed_trans(old(an)@, collected, an@);
    }
    collector
}

/// The resolver of the shallow pass. It reads the scope that a collector
/// gathered and never changes it.
pub struct TopLevelResolver<'a> {
    pub collector: &'a Collector,
}

impl<'a> TopLevelResolver<'a> {
    /// Resolves one qualified path, as `spec_shallow_qualified` says.
    pub fn resolve_qualified(&self, ast: &Ast, an: &mut Analysis, n: Node, depth: u128)
        ensures
            final(an)@ == spec_shallow_qualified(
                ast,
                self.collector@.frames,
                old(an)@,
                n,
                depth as nat,
            ),
            paths_settled(ast, old(an)@, final(an)@, (n.index + 1) as nat, depth as nat),
            rightly_settled(ast, self.collector@.frames, old(an)@, final(an)@),
            resolvable(ast, self.collector@.frames, n) ==> final(an)@.res.contains_key(n.index),
    {
        shallow_qualified(self.collector.scope(), ast, an, n, depth);
    }

    /// Walks `n` and resolves the qualified paths in it, as `spec_shallow_visit` says.
    pub fn visit(&self, ast: &Ast, an: &mut Analysis, n: Node, depth: u128)
        ensures
            final(an)@ == spec_shallow_visit(
                ast,
                self.collector@.frames,
                old(an)@,
                n,
                depth as nat,
            ),
            paths_settled(ast, old(an)@, final(an)@, (n.index + 1) as nat, depth as nat),
            rightly_settled(ast, self.collector@.frames, old(an)@, final(an)@),
            reached(ast, self.collector@.frames, final(an)@, n),
    {
        shallow_visit(self.collector.scope(), ast, an, n, depth);
    }
}

} // verus!
