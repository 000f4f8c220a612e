//! The full pass: it walks a whole unit, opens a lexical scope for every
//! construct that introduces one, and attaches a result to every identifier
//! and every qualified path it reaches. What it cannot resolve gets
//! `Res::Error` and a diagnostic; the rest of the unit is not affected.
//!
//! The heritage clauses of a class are walked to from the class, whether or
//! not the tree lists them among its children as well; a clause that is met
//! twice has its result from the first time.

use vstd::prelude::*;
use crate::analysis::{lemma_kept_trans, lemma_units_added_trans, Analysis, Diagnostic, State};
use crate::ast::{Ast, NodeKind};
use crate::collect::{
    lemma_grown_trans, lemma_within_trans, spec_collect_all, spec_collect_function,
    spec_collect_var_def, within_limit, Collector, CollectorView,
};
use crate::exports::{class_exports_within, spec_class_exports, spec_lookup_member};
use crate::res::{Module, Node, Res, Symbol, SYM_RUNTIME_TYPE, SYM_SUPER, SYM_THIS};
use crate::scope::{lookup_in, overlay, Frame};
use crate::shallow::{
    bare_name, clause_of, goes, reached, resolvable, resolve_types, settled_at, shallow_visit,
    spec_collect_unit, spec_shallow_visit, spec_shallow_visit_all,
};

verus! {

/// `frames` without its local frame; a single frame stays.
pub open spec fn without_local(frames: Seq<Frame>) -> Seq<Frame> {
    if frames.len() > 1 {
        frames.drop_last()
    } else {
        frames
    }
}

/// An identifier `n` that spells `name`: it gets what `name` denotes in
/// `frames`, and one diagnostic when that is `Res::Error`.
pub open spec fn spec_identifier(frames: Seq<Frame>, st: State, n: Node, name: Symbol) -> State {
    let res = lookup_in(frames, name);
    if res == Res::Error {
        st.report(Diagnostic::UnknownValue(n)).attach(n, res)
    } else {
        st.attach(n, res)
    }
}

/// The type parameters among `nodes[i..]`, each bound to itself.
pub open spec fn spec_bind_type_params(
    ast: &Ast,
    cv: CollectorView,
    nodes: Seq<Node>,
    i: int,
) -> CollectorView
    decreases nodes.len() - i,
{
    if 0 <= i < nodes.len() {
        let step = match ast.kind(nodes[i]) {
            NodeKind::TypeParameter { name } => cv.bind(name, Res::TypeParameter(nodes[i])),
            _ => cv,
        };
        spec_bind_type_params(ast, step, nodes, i + 1)
    } else {
        cv
    }
}

/// A heritage clause `q` seen from inside the class: the shallow pass
/// resolves it in the scope at hand; when it denotes a class, the names of
/// that class's export table are bound in the local frame, otherwise a
/// diagnostic is raised.
pub open spec fn spec_inherit(ast: &Ast, cv: CollectorView, st: State, q: Node, depth: nat) -> (
    CollectorView,
    State,
) {
    let st1 = spec_shallow_visit(ast, cv.frames, st, q, depth);
    match st1.res_of(q) {
        Some(Res::Class(c)) => {
            let (table, st2) = spec_class_exports(ast, st1, c, depth);
            match table {
                Some(frames) => (cv.with_frames(overlay(cv.frames, frames)), st2),
                None => (cv, st2),
            }
        },
        _ => (cv, st1.report(Diagnostic::UnknownClass(q))),
    }
}

/// The heritage clauses `paths[i..]`, in order.
pub open spec fn spec_inherit_all(
    ast: &Ast,
    cv: CollectorView,
    st: State,
    paths: Seq<Node>,
    i: int,
    depth: nat,
) -> (CollectorView, State)
    decreases paths.len() - i,
{
    if 0 <= i < paths.len() {
        let (cv1, st1) = spec_inherit(ast, cv, st, paths[i], depth);
        spec_inherit_all(ast, cv1, st1, paths, i + 1, depth)
    } else {
        (cv, st)
    }
}

/// What a class brings into the scope of its body: `this`, `super` and
/// `runtimeType`, then the names of its superclass, mixins and interfaces,
/// then its own members. A node that is no class brings nothing.
pub open spec fn spec_class_scope(ast: &Ast, cv: CollectorView, st: State, n: Node, depth: nat) -> (
    CollectorView,
    State,
) {
    match ast.heritage(n) {
        Some((superclass, mixins, interfaces)) => {
            let cv0 = cv.bind(SYM_THIS, Res::This).bind(SYM_SUPER, Res::Super).bind(
                SYM_RUNTIME_TYPE,
                Res::RuntimeType,
            );
            let (cv1, st1) = match superclass {
                Some(q) => spec_inherit(ast, cv0, st, q, depth),
                None => (cv0, st),
            };
            let (cv2, st2) = spec_inherit_all(ast, cv1, st1, mixins, 0, depth);
            let (cv3, st3) = spec_inherit_all(ast, cv2, st2, interfaces, 0, depth);
            spec_collect_all(ast, cv3, st3, ast.children(n), 0, n.index as nat, depth)
        },
        None => (cv, st),
    }
}

/// The children of `n` resolved in a fresh lexical scope, which is closed again.
pub open spec fn spec_scoped(ast: &Ast, cv: CollectorView, st: State, n: Node, depth: nat) -> (
    CollectorView,
    State,
)
    decreases n.index + 1, 0nat,
{
    let inner = cv.with_frames(cv.frames.push(Map::empty()));
    let (cv1, st1) = spec_full_visit_all(ast, inner, st, ast.children(n), 0, n.index as nat, depth);
    (cv1.with_frames(without_local(cv1.frames)), st1)
}

/// The full pass on the heritage of `n`: the superclass clause, then the
/// mixin clauses, then the interface clauses. A node that is no class has
/// none.
pub open spec fn spec_full_heritage(
    ast: &Ast,
    cv: CollectorView,
    st: State,
    n: Node,
    depth: nat,
) -> (CollectorView, State)
    decreases n.index + 1, 0nat,
{
    match ast.heritage(n) {
        Some((superclass, mixins, interfaces)) => {
            let (cv1, st1) = match superclass {
                Some(q) => if q.index < n.index {
                    spec_full_visit(ast, cv, st, q, depth)
                } else {
                    (cv, st)
                },
                None => (cv, st),
            };
            let (cv2, st2) = spec_full_visit_all(ast, cv1, st1, mixins, 0, n.index as nat, depth);
            spec_full_visit_all(ast, cv2, st2, interfaces, 0, n.index as nat, depth)
        },
        None => (cv, st),
    }
}

/// A top-level item: it is resolved in a scope of its own. A class first
/// fills that scope as `spec_class_scope` says; then its heritage clauses
/// are resolved, whether or not they stand among its children, and then
/// its children.
pub open spec fn spec_resolve_item(
    ast: &Ast,
    cv: CollectorView,
    st: State,
    n: Node,
    depth: nat,
) -> (CollectorView, State)
    decreases n.index + 1, 1nat,
{
    let inner = cv.with_frames(cv.frames.push(Map::empty()));
    let (cv1, st1) = spec_class_scope(ast, inner, st, n, depth);
    let (cv2, st2) = spec_full_heritage(ast, cv1, st1, n, depth);
    let (cv3, st3) = spec_full_visit_all(ast, cv2, st2, ast.children(n), 0, n.index as nat, depth);
    (cv3.with_frames(without_local(cv3.frames)), st3)
}

/// A function: its name is bound in the scope around it, its parameters and
/// body are resolved in a scope of their own.
pub open spec fn spec_resolve_function(
    ast: &Ast,
    cv: CollectorView,
    st: State,
    n: Node,
    depth: nat,
) -> (CollectorView, State)
    decreases n.index + 1, 1nat,
{
    spec_scoped(ast, spec_collect_function(ast, cv, n), st, n, depth)
}

/// A variable declaration: the variable is bound where it is declared, before
/// its initializer is resolved.
pub open spec fn spec_resolve_var_def(
    ast: &Ast,
    cv: CollectorView,
    st: State,
    n: Node,
    depth: nat,
) -> (CollectorView, State)
    decreases n.index + 1, 1nat,
{
    spec_full_visit_all(
        ast,
        spec_collect_var_def(ast, cv, n),
        st,
        ast.children(n),
        0,
        n.index as nat,
        depth,
    )
}

/// An identifier: one that has a result is left alone, with all below it;
/// any other is resolved in the scope at hand, and its children are walked.
pub open spec fn spec_resolve_expr(
    ast: &Ast,
    cv: CollectorView,
    st: State,
    n: Node,
    depth: nat,
) -> (CollectorView, State)
    decreases n.index + 1, 1nat,
{
    match ast.kind(n) {
        NodeKind::Identifier { name } => if st.res_of(n) is Some {
            (cv, st)
        } else {
            spec_full_visit_all(
                ast,
                cv,
                spec_identifier(cv.frames, st, n, name),
                ast.children(n),
                0,
                n.index as nat,
                depth,
            )
        },
        _ => (cv, st),
    }
}

/// A qualified path: its type arguments are resolved first. A path that has
/// a result is left alone. A path with a prefix resolves as a member of what
/// the prefix denotes; a bare name resolves in the scope at hand. The result
/// is attached whatever it is, with a diagnostic when it is `Res::Error`.
pub open spec fn spec_resolve_qualified(
    ast: &Ast,
    cv: CollectorView,
    st: State,
    n: Node,
    depth: nat,
) -> (CollectorView, State)
    decreases n.index + 1, 1nat,
{
    match ast.kind(n) {
        NodeKind::Qualified { name, prefix, params } => {
            let (cv1, st1) = spec_full_visit_all(ast, cv, st, params@, 0, n.index as nat, depth);
            if st1.res_of(n) is Some {
                (cv1, st1)
            } else {
                let (res, cv2, st2) = match prefix {
                    Some(p) => {
                        let (cv_p, st_p) = if p.index < n.index {
                            spec_full_visit(ast, cv1, st1, p, depth)
                        } else {
                            (cv1, st1)
                        };
                        match st_p.res_of(p) {
                            Some(of) => {
                                let (member, st_m) = spec_lookup_member(ast, st_p, of, name, depth);
                                (member, cv_p, st_m)
                            },
                            None => (Res::Error, cv_p, st_p),
                        }
                    },
                    None => (lookup_in(cv1.frames, name), cv1, st1),
                };
                if res == Res::Error {
                    (cv2, st2.report(Diagnostic::UnknownPath(n)).attach(n, res))
                } else {
                    (cv2, st2.attach(n, res))
                }
            }
        },
        _ => (cv, st),
    }
}

/// A list of type parameters: each is bound to itself, then their bounds
/// are resolved.
pub open spec fn spec_resolve_generics(
    ast: &Ast,
    cv: CollectorView,
    st: State,
    n: Node,
    depth: nat,
) -> (CollectorView, State)
    decreases n.index + 1, 1nat,
{
    spec_full_visit_all(
        ast,
        spec_bind_type_params(ast, cv, ast.children(n), 0),
        st,
        ast.children(n),
        0,
        n.index as nat,
        depth,
    )
}

/// The full pass on one node, by its kind. A node of a kind that has no
/// rule of its own is walked through.
pub open spec fn spec_full_visit(ast: &Ast, cv: CollectorView, st: State, n: Node, depth: nat) -> (
    CollectorView,
    State,
)
    decreases n.index + 1, 2nat,
{
    match ast.kind(n) {
        NodeKind::Class { .. } => spec_resolve_item(ast, cv, st, n, depth),
        NodeKind::MixinClass { .. } => spec_resolve_item(ast, cv, st, n, depth),
        NodeKind::Enum { .. } => spec_resolve_item(ast, cv, st, n, depth),
        NodeKind::TypeAlias { .. } => spec_resolve_item(ast, cv, st, n, depth),
        NodeKind::Item => spec_resolve_item(ast, cv, st, n, depth),
        NodeKind::Part => spec_resolve_item(ast, cv, st, n, depth),
        NodeKind::Export { .. } => spec_resolve_item(ast, cv, st, n, depth),
        NodeKind::Import { .. } => spec_resolve_item(ast, cv, st, n, depth),
        NodeKind::Function { .. } => spec_resolve_function(ast, cv, st, n, depth),
        NodeKind::TryPart => spec_scoped(ast, cv, st, n, depth),
        NodeKind::Block => spec_scoped(ast, cv, st, n, depth),
        NodeKind::ForIn => spec_scoped(ast, cv, st, n, depth),
        NodeKind::VarDef { .. } => spec_resolve_var_def(ast, cv, st, n, depth),
        NodeKind::Identifier { .. } => spec_resolve_expr(ast, cv, st, n, depth),
        NodeKind::Qualified { .. } => spec_resolve_qualified(ast, cv, st, n, depth),
        NodeKind::Generics => spec_resolve_generics(ast, cv, st, n, depth),
        _ => spec_full_visit_all(ast, cv, st, ast.children(n), 0, n.index as nat, depth),
    }
}

/// The full pass on `nodes[i..]`, in order. A handle at or above `bound` is
/// passed over.
pub open spec fn spec_full_visit_all(
    ast: &Ast,
    cv: CollectorView,
    st: State,
    nodes: Seq<Node>,
    i: int,
    bound: nat,
    depth: nat,
) -> (CollectorView, State)
    decreases bound, nodes.len() - i + 3,
{
    if 0 <= i < nodes.len() {
        if nodes[i].index < bound {
            let (cv1, st1) = spec_full_visit(ast, cv, st, nodes[i], depth);
            spec_full_visit_all(ast, cv1, st1, nodes, i + 1, bound, depth)
        } else {
            spec_full_visit_all(ast, cv, st, nodes, i + 1, bound, depth)
        }
    } else {
        (cv, st)
    }
}

/// The state after resolving `module`. The unit is collected; when a unit it
/// imports had failed to load, nothing more is done. Otherwise the shallow
/// pass runs over its items, and then, if `fully` is set, the full pass.
pub open spec fn spec_resolve(
    ast: &Ast,
    st: State,
    module: Module,
    fully: bool,
    depth: nat,
) -> State {
    let (cv, st1) = spec_collect_unit(ast, st, module, depth);
    if cv.has_error {
        st1
    } else {
        let st2 = spec_shallow_visit_all(
            ast,
            cv.frames,
            st1,
            ast.items(module),
            0,
            ast.nodes().len(),
            depth,
        );
        if fully {
            spec_full_visit_all(ast, cv, st2, ast.items(module), 0, ast.nodes().len(), depth).1
        } else {
            st2
        }
    }
}

/// Whether the full pass, started at `from`, walks down to `to`: it goes
/// from a node to its children and to its heritage clauses, but not below
/// an identifier or a qualified path.
pub open spec fn walks(ast: &Ast, from: Node, to: Node) -> bool
    decreases from.index,
{
    ||| from == to
    ||| !(ast.kind(from) is Qualified) && !(ast.kind(from) is Identifier) && exists|j: int|
        0 <= j < ast.children(from).len() && ast.children(from)[j].index < from.index && walks(
            ast,
            #[trigger] ast.children(from)[j],
            to,
        )
    ||| exists|q: Node| #[trigger] clause_of(ast, from, q) && walks(ast, q, to)
}

/// The name that `n` spells, if `n` is an identifier.
pub open spec fn spelled(ast: &Ast, n: Node) -> Option<Symbol> {
    match ast.kind(n) {
        NodeKind::Identifier { name } => Some(name),
        _ => None,
    }
}

/// Whether `n` is a node that the full pass attaches a result to.
pub open spec fn is_name(ast: &Ast, n: Node) -> bool {
    ast.kind(n) is Identifier || ast.kind(n) is Qualified
}

/// Every identifier and every qualified path that the full pass walks to
/// from `n` has a result in `st`.
pub open spec fn covered(ast: &Ast, st: State, n: Node) -> bool {
    forall|m: Node| #[trigger] walks(ast, n, m) && is_name(ast, m) ==> st.res.contains_key(m.index)
}

/// `covered` holds of each of `nodes[..upto]` that is below `bound`.
pub open spec fn covered_upto(
    ast: &Ast,
    st: State,
    nodes: Seq<Node>,
    upto: int,
    bound: nat,
) -> bool {
    forall|j: int|
        0 <= j < upto && j < nodes.len() && (#[trigger] nodes[j]).index < bound ==> covered(
            ast,
            st,
            nodes[j],
        )
}

/// What any step of the full pass leaves behind: the scope differs in its
/// local frame at most, nothing that was attached or kept is lost, and where
/// `depth` was enough the nesting limit was not reached.
pub open spec fn passed(
    ast: &Ast,
    cv0: CollectorView,
    st0: State,
    cv1: CollectorView,
    st1: State,
    depth: nat,
) -> bool {
    &&& cv0.grown_to(cv1)
    &&& st0.kept_by(st1)
    &&& within_limit(ast, st0, st1, depth)
}

/// Steps of the full pass compose.
pub(crate) proof fn lemma_passed_trans(
    ast: &Ast,
    cv0: CollectorView,
    st0: State,
    cv1: CollectorView,
    st1: State,
    cv2: CollectorView,
    st2: State,
    depth: nat,
)
    requires
        passed(ast, cv0, st0, cv1, st1, depth),
        passed(ast, cv1, st1, cv2, st2, depth),
    ensures
        passed(ast, cv0, st0, cv2, st2, depth),
{
    lemma_grown_trans(cv0, cv1, cv2);
    lemma_kept_trans(st0, st1, st2);
    lemma_within_trans(ast, st0, st1, st2, depth);
}

/// What the full pass leaves behind after walking through `n`: as `passed`
/// says, and every identifier and qualified path that the pass walks to from
/// a child of `n` has a result.
pub open spec fn resolved(
    ast: &Ast,
    cv0: CollectorView,
    st0: State,
    cv1: CollectorView,
    st1: State,
    n: Node,
    depth: nat,
) -> bool {
    &&& passed(ast, cv0, st0, cv1, st1, depth)
    &&& covered_upto(ast, st1, ast.children(n), ast.children(n).len() as int, n.index as nat)
}

/// In a well-founded tree the full pass walks from a node that is no name
/// to whatever it walks to from one of the node's children.
pub proof fn lemma_walks_down(ast: &Ast, from: Node, j: int, to: Node)
    requires
        ast.wf(),
        !is_name(ast, from),
        0 <= j < ast.children(from).len(),
        walks(ast, ast.children(from)[j], to),
    ensures
        walks(ast, from, to),
{
    ast.lemma_children_below(from);
}

/// In a well-founded tree, once the full pass has gone over the items of a
/// unit, every identifier and qualified path that it walks to from any item
/// has a result.
pub proof fn lemma_items_covered(ast: &Ast, st: State, module: Module, j: int)
    requires
        ast.wf(),
        0 <= j < ast.items(module).len(),
        covered_upto(
            ast,
            st,
            ast.items(module),
            ast.items(module).len() as int,
            ast.nodes().len(),
        ),
    ensures
        covered(ast, st, ast.items(module)[j]),
{
    ast.lemma_items_below(module);
}

/// Results that are there stay there.
pub(crate) proof fn lemma_covered_kept(
    ast: &Ast,
    a: State,
    b: State,
    nodes: Seq<Node>,
    upto: int,
    bound: nat,
)
    requires
        covered_upto(ast, a, nodes, upto, bound),
        a.kept_by(b),
    ensures
        covered_upto(ast, b, nodes, upto, bound),
{
    assert forall|j: int|
        0 <= j < upto && j < nodes.len() && (#[trigger] nodes[j]).index < bound implies covered(
        ast,
        b,
        nodes[j],
    ) by {
        assert(covered(ast, a, nodes[j]));
        assert forall|m: Node| #[trigger]
            walks(ast, nodes[j], m) && is_name(ast, m) implies b.res.contains_key(m.index) by {
            assert(a.res.dom().contains(m.index));
        }
    }
}

/// A node whose children are covered is covered, unless it is itself a
/// name without a result.
pub(crate) proof fn lemma_children_cover(ast: &Ast, st: State, n: Node)
    requires
        covered_upto(ast, st, ast.children(n), ast.children(n).len() as int, n.index as nat),
        forall|q: Node| #[trigger] clause_of(ast, n, q) ==> covered(ast, st, q),
        is_name(ast, n) ==> st.res.contains_key(n.index),
    ensures
        covered(ast, st, n),
{
    assert forall|m: Node| #[trigger]
        walks(ast, n, m) && is_name(ast, m) implies st.res.contains_key(m.index) by {
        if n != m {
            if exists|q: Node| #[trigger] clause_of(ast, n, q) && walks(ast, q, m) {
                let q = choose|q: Node| #[trigger] clause_of(ast, n, q) && walks(ast, q, m);
                assert(covered(ast, st, q));
            } else {
                let j = choose|j: int|
                    0 <= j < ast.children(n).len() && ast.children(n)[j].index < n.index
                        && walks(ast, #[trigger] ast.children(n)[j], m);
                assert(covered(ast, st, ast.children(n)[j]));
            }
        }
    }
}

/// A node that is covered stays covered.
pub(crate) proof fn lemma_covered_stays(ast: &Ast, a: State, b: State, n: Node)
    requires
        covered(ast, a, n),
        a.kept_by(b),
    ensures
        covered(ast, b, n),
{
    assert forall|m: Node| #[trigger]
        walks(ast, n, m) && is_name(ast, m) implies b.res.contains_key(m.index) by {
        assert(a.res.dom().contains(m.index));
    }
}

/// A name is covered once it has a result: the pass does not walk through it.
pub(crate) proof fn lemma_name_covered(ast: &Ast, st: State, n: Node)
    requires
        is_name(ast, n),
        st.res.contains_key(n.index),
    ensures
        covered(ast, st, n),
{
}

/// Attaches to the identifier `n` what `name` denotes in `collector`; an
/// identifier that has a result keeps it. One diagnostic is raised when the
/// name denotes nothing, none otherwise.
pub fn resolve_identifier(collector: &Collector, an: &mut Analysis, n: Node, name: Symbol)
    ensures
        final(an)@ == spec_identifier(collector@.frames, old(an)@, n, name),
        old(an)@.res_of(n) is None ==> final(an)@.res_of(n) == Some(
            lookup_in(collector@.frames, name),
        ),
        final(an)@.diagnostics == if lookup_in(collector@.frames, name) == Res::Error {
            old(an)@.diagnostics.push(Diagnostic::UnknownValue(n))
        } else {
            old(an)@.diagnostics
        },
        old(an)@.kept_by(final(an)@),
        old(an)@.quiet_until(final(an)@),
        final(an)@.res.contains_key(n.index),
{
    let res = collector.lookup(name);
    let ghost before = an@;
    if res == Res::Error {
        an.report(Diagnostic::UnknownValue(n));
    }
    let ghost reported = an@;
    an.attach(n, res);
    proof {
        lemma_kept_trans(before, reported, an@);
    }
}

/// The resolver of the full pass. Its collector holds the scope at the
/// point that the walk has reached.
pub struct Resolver {
    pub collector: Collector,
}

impl Resolver {
    /// Binds the type parameters among `nodes`, as `spec_bind_type_params` says.
    fn bind_type_params(&mut self, ast: &Ast, nodes: &Vec<Node>)
        ensures
            final(self).collector@ == spec_bind_type_params(ast, old(self).collector@, nodes@, 0),
            old(self).collector@.grown_to(final(self).collector@),
    {
        proof {
            self.collector.lemma_nonempty();
        }
        let mut i: usize = 0;
        while i < nodes.len()
            invariant
                i <= nodes.len(),
                spec_bind_type_params(ast, self.collector@, nodes@, i as int)
                    == spec_bind_type_params(ast, old(self).collector@, nodes@, 0),
                old(self).collector@.grown_to(self.collector@),
            decreases nodes.len() - i,
        {
            let ghost before = self.collector@;
            if let Some(data) = ast.node(nodes[i]) {
                if let NodeKind::TypeParameter { name } = &data.kind {
                    self.collector.record(*name, Res::TypeParameter(nodes[i]));
                }
            }
            proof {
                lemma_grown_trans(old(self).collector@, before, self.collector@);
            }
            i = i + 1;
        }
    }

    /// Brings in the names of the heritage clause `q`, as `spec_inherit` says.
    fn inherit(&mut self, ast: &Ast, an: &mut Analysis, q: Node, depth: u128)
        ensures
            (final(self).collector@, final(an)@) == spec_inherit(
                ast,
                old(self).collector@,
                old(an)@,
                q,
                depth as nat,
            ),
            passed(
                ast,
                old(self).collector@,
                old(an)@,
                final(self).collector@,
                final(an)@,
                depth as nat,
            ),
    {
        proof {
            self.collector.lemma_nonempty();
        }
        shallow_visit(self.collector.scope(), ast, an, q, depth);
        let ghost visited = an@;
        match an.res(q) {
            Some(Res::Class(c)) => {
                let found = class_exports_within(c, ast, an, depth);
                proof {
                    lemma_kept_trans(old(an)@, visited, an@);
                    lemma_within_trans(ast, old(an)@, visited, an@, depth as nat);
                }
                if let Some(table) = found {
                    self.collector.extend(&table);
                }
            },
            _ => {
                an.report(Diagnostic::UnknownClass(q));
                proof {
                    lemma_kept_trans(old(an)@, visited, an@);
                    lemma_within_trans(ast, old(an)@, visited, an@, depth as nat);
                }
            },
        }
    }

    /// Brings in the names of the clauses `paths`, in order, as
    /// `spec_inherit_all` says.
    fn inherit_all(&mut self, ast: &Ast, an: &mut Analysis, paths: &Vec<Node>, depth: u128)
        ensures
            (final(self).collector@, final(an)@) == spec_inherit_all(
                ast,
                old(self).collector@,
                old(an)@,
                paths@,
                0,
                depth as nat,
            ),
            passed(
                ast,
                old(self).collector@,
                old(an)@,
                final(self).collector@,
                final(an)@,
                depth as nat,
            ),
    {
        proof {
            self.collector.lemma_nonempty();
            lemma_units_added_trans(an@, an@, an@);
        }
        let mut i: usize = 0;
        while i < paths.len()
            invariant
                i <= paths.len(),
                spec_inherit_all(ast, self.collector@, an@, paths@, i as int, depth as nat)
                    == spec_inherit_all(
                    ast,
                    old(self).collector@,
                    old(an)@,
                    paths@,
                    0,
                    depth as nat,
                ),
                passed(ast, old(self).collector@, old(an)@, self.collector@, an@, depth as nat),
            decreases paths.len() - i,
        {
            let ghost before = self.collector@;
            let ghost state_before = an@;
            self.inherit(ast, an, paths[i], depth);
            proof {
                lemma_passed_trans(
                    ast,
                    old(self).collector@,
                    old(an)@,
                    before,
                    state_before,
                    self.collector@,
                    an@,
                    depth as nat,
                );
            }
            i = i + 1;
        }
    }

    /// Fills the scope of a class body, as `spec_class_scope` says.
    pub fn class_scope(&mut self, ast: &Ast, an: &mut Analysis, n: Node, depth: u128)
        ensures
            (final(self).collector@, final(an)@) == spec_class_scope(
                ast,
                old(self).collector@,
                old(an)@,
                n,
                depth as nat,
            ),
            passed(
                ast,
                old(self).collector@,
                old(an)@,
                final(self).collector@,
                final(an)@,
                depth as nat,
            ),
    {
        proof {
            self.collector.lemma_nonempty();
            lemma_units_added_trans(an@, an@, an@);
        }
        if let Some(data) = ast.node(n) {
            if let Some((superclass, mixins, interfaces)) = ast.clauses(n) {
                let ghost c0 = self.collector@;
                let ghost s0 = an@;
                self.collector.record(SYM_THIS, Res::This);
                let ghost c1 = self.collector@;
                self.collector.record(SYM_SUPER, Res::Super);
                let ghost c2 = self.collector@;
                self.collector.record(SYM_RUNTIME_TYPE, Res::RuntimeType);
                let ghost c3 = self.collector@;
                proof {
                    lemma_grown_trans(c0, c1, c2);
                    lemma_grown_trans(c0, c2, c3);
                }
                if let Some(q) = superclass {
                    self.inherit(ast, an, q, depth);
                }
                let ghost c4 = self.collector@;
                let ghost s4 = an@;
                proof {
                    lemma_passed_trans(ast, c0, s0, c3, s0, c4, s4, depth as nat);
                }
                self.inherit_all(ast, an, mixins, depth);
                let ghost c5 = self.collector@;
                let ghost s5 = an@;
                self.inherit_all(ast, an, interfaces, depth);
                let ghost c6 = self.collector@;
                let ghost s6 = an@;
                self.collector.collect_all(ast, an, &data.children, n.index, depth);
                proof {
                    lemma_units_added_trans(s6, an@, an@);
                    lemma_passed_trans(ast, c0, s0, c4, s4, c5, s5, depth as nat);
                    lemma_passed_trans(ast, c0, s0, c5, s5, c6, s6, depth as nat);
                    lemma_passed_trans(ast, c0, s0, c6, s6, self.collector@, an@, depth as nat);
                }
            }
        }
    }

    /// Resolves the children of `n` in a fresh lexical scope and closes the
    /// scope again, as `spec_scoped` says. The scope is afterwards what it
    /// was before.
    pub fn in_lexical_scope(&mut self, ast: &Ast, an: &mut Analysis, n: Node, depth: u128)
        ensures
            (final(self).collector@, final(an)@) == spec_scoped(
                ast,
                old(self).collector@,
                old(an)@,
                n,
                depth as nat,
            ),
            final(self).collector@.frames == old(self).collector@.frames,
            resolved(
                ast,
                old(self).collector@,
                old(an)@,
                final(self).collector@,
                final(an)@,
                n,
                depth as nat,
            ),
        decreases n.index + 1, 0nat,
    {
        proof {
            self.collector.lemma_nonempty();
            lemma_units_added_trans(an@, an@, an@);
        }
        self.collector.enter();
        match ast.node(n) {
            Some(data) => {
                self.visit_all(ast, an, &data.children, n.index, depth);
            },
            None => {
                assert(ast.children(n).len() == 0);
            },
        }
        self.collector.leave();
        assert(self.collector@.frames =~= old(self).collector@.frames);
    }

    /// Resolves the heritage clauses of `n`, as `spec_full_heritage` says.
    /// Afterwards every name that the pass walks to from a clause has a
    /// result.
    pub fn resolve_heritage(&mut self, ast: &Ast, an: &mut Analysis, n: Node, depth: u128)
        ensures
            (final(self).collector@, final(an)@) == spec_full_heritage(
                ast,
                old(self).collector@,
                old(an)@,
                n,
                depth as nat,
            ),
            passed(
                ast,
                old(self).collector@,
                old(an)@,
                final(self).collector@,
                final(an)@,
                depth as nat,
            ),
            forall|q: Node| #[trigger] clause_of(ast, n, q) ==> covered(ast, final(an)@, q),
        decreases n.index + 1, 0nat,
    {
        proof {
            self.collector.lemma_nonempty();
            lemma_units_added_trans(an@, an@, an@);
        }
        if let Some((superclass, mixins, interfaces)) = ast.clauses(n) {
            let ghost c0 = self.collector@;
            let ghost s0 = an@;
            if let Some(q) = superclass {
                if q.index < n.index {
                    self.visit(ast, an, q, depth);
                }
            }
            let ghost c1 = self.collector@;
            let ghost s1 = an@;
            self.visit_all(ast, an, mixins, n.index, depth);
            let ghost c2 = self.collector@;
            let ghost s2 = an@;
            self.visit_all(ast, an, interfaces, n.index, depth);
            proof {
                let bound = n.index as nat;
                lemma_passed_trans(ast, c0, s0, c1, s1, c2, s2, depth as nat);
                lemma_passed_trans(ast, c0, s0, c2, s2, self.collector@, an@, depth as nat);
                lemma_kept_trans(s1, s2, an@);
                lemma_covered_kept(ast, s2, an@, mixins@, mixins.len() as int, bound);
                assert forall|q: Node| #[trigger] clause_of(ast, n, q) implies covered(
                    ast,
                    an@,
                    q,
                ) by {
                    if superclass == Some(q) {
                        lemma_covered_stays(ast, s1, an@, q);
                    } else if mixins@.contains(q) {
                        let j = choose|j: int| 0 <= j < mixins@.len() && mixins@[j] == q;
                        assert(covered(ast, an@, mixins@[j]));
                    } else {
                        let j = choose|j: int| 0 <= j < interfaces@.len() && interfaces@[j] == q;
                        assert(covered(ast, an@, interfaces@[j]));
                    }
                }
            }
        }
    }

    /// Resolves a top-level item, as `spec_resolve_item` says. The scope is
    /// afterwards what it was before, and every name that the pass walks to
    /// from a heritage clause of the item has a result.
    pub fn resolve_item(&mut self, ast: &Ast, an: &mut Analysis, n: Node, depth: u128)
        ensures
            (final(self).collector@, final(an)@) == spec_resolve_item(
                ast,
                old(self).collector@,
                old(an)@,
                n,
                depth as nat,
            ),
            final(self).collector@.frames == old(self).collector@.frames,
            resolved(
                ast,
                old(self).collector@,
                old(an)@,
                final(self).collector@,
                final(an)@,
                n,
                depth as nat,
            ),
            forall|q: Node| #[trigger] clause_of(ast, n, q) ==> covered(ast, final(an)@, q),
        decreases n.index + 1, 1nat,
    {
        proof {
            self.collector.lemma_nonempty();
            lemma_units_added_trans(an@, an@, an@);
        }
        self.collector.enter();
        let ghost entered = self.collector@;
        self.class_scope(ast, an, n, depth);
        let ghost filled = self.collector@;
        let ghost state_filled = an@;
        self.resolve_heritage(ast, an, n, depth);
        let ghost inherited = self.collector@;
        let ghost state_inherited = an@;
        match ast.node(n) {
            Some(data) => {
                self.visit_all(ast, an, &data.children, n.index, depth);
            },
            None => {
                assert(ast.children(n).len() == 0);
            },
        }
        proof {
            lemma_passed_trans(
                ast,
                entered,
                old(an)@,
                filled,
                state_filled,
                inherited,
                state_inherited,
                depth as nat,
            );
            lemma_passed_trans(
                ast,
                entered,
                old(an)@,
                inherited,
                state_inherited,
                self.collector@,
                an@,
                depth as nat,
            );
            assert forall|q: Node| #[trigger] clause_of(ast, n, q) implies covered(
                ast,
                an@,
                q,
            ) by {
                lemma_covered_stays(ast, state_inherited, an@, q);
            }
        }
        self.collector.leave();
        assert(self.collector@.frames =~= old(self).collector@.frames);
    }

    /// Resolves a function, as `spec_resolve_function` says.
    pub fn resolve_function(&mut self, ast: &Ast, an: &mut Analysis, n: Node, depth: u128)
        ensures
            (final(self).collector@, final(an)@) == spec_resolve_function(
                ast,
                old(self).collector@,
                old(an)@,
                n,
                depth as nat,
            ),
            resolved(
                ast,
                old(self).collector@,
                old(an)@,
                final(self).collector@,
                final(an)@,
                n,
                depth as nat,
            ),
        decreases n.index + 1, 1nat,
    {
        self.collector.collect_function(ast, n);
        let ghost bound = self.collector@;
        self.in_lexical_scope(ast, an, n, depth);
        proof {
            lemma_grown_trans(old(self).collector@, bound, self.collector@);
        }
    }

    /// Resolves a variable declaration, as `spec_resolve_var_def` says.
    pub fn resolve_var_def(&mut self, ast: &Ast, an: &mut Analysis, n: Node, depth: u128)
        ensures
            (final(self).collector@, final(an)@) == spec_resolve_var_def(
                ast,
                old(self).collector@,
                old(an)@,
                n,
                depth as nat,
            ),
            resolved(
                ast,
                old(self).collector@,
                old(an)@,
                final(self).collector@,
                final(an)@,
                n,
                depth as nat,
            ),
        decreases n.index + 1, 1nat,
    {
        proof {
            lemma_units_added_trans(an@, an@, an@);
        }
        self.collector.collect_var_def(ast, n);
        let ghost bound = self.collector@;
        match ast.node(n) {
            Some(data) => {
                self.visit_all(ast, an, &data.children, n.index, depth);
            },
            None => {
                assert(ast.children(n).len() == 0);
            },
        }
        proof {
            lemma_grown_trans(old(self).collector@, bound, self.collector@);
        }
    }

    /// Resolves an identifier, as `spec_resolve_expr` says. An identifier
    /// that had no result has what its name denotes in the scope at hand:
    /// the binding of the innermost frame that binds the name, and
    /// `Res::Error` when no frame does.
    pub fn resolve_expr(&mut self, ast: &Ast, an: &mut Analysis, n: Node, depth: u128)
        ensures
            (final(self).collector@, final(an)@) == spec_resolve_expr(
                ast,
                old(self).collector@,
                old(an)@,
                n,
                depth as nat,
            ),
            passed(
                ast,
                old(self).collector@,
                old(an)@,
                final(self).collector@,
                final(an)@,
                depth as nat,
            ),
            ast.kind(n) is Identifier ==> final(an)@.res.contains_key(n.index),
            spelled(ast, n) is Some && old(an)@.res_of(n) is None ==> final(an)@.res_of(n) == Some(
                lookup_in(old(self).collector@.frames, spelled(ast, n)->0),
            ),
        decreases n.index + 1, 1nat,
    {
        proof {
            self.collector.lemma_nonempty();
            lemma_units_added_trans(an@, an@, an@);
        }
        if let Some(data) = ast.node(n) {
            if let NodeKind::Identifier { name } = &data.kind {
                if an.res(n).is_some() {
                    return ;
                }
                resolve_identifier(&self.collector, an, n, *name);
                let ghost attached = an@;
                self.visit_all(ast, an, &data.children, n.index, depth);
                proof {
                    lemma_kept_trans(old(an)@, attached, an@);
                    lemma_within_trans(ast, old(an)@, attached, an@, depth as nat);
                    assert(attached.res.dom().contains(n.index));
                }
            }
        }
    }

    /// Resolves a qualified path, as `spec_resolve_qualified` says.
    pub fn resolve_qualified(&mut self, ast: &Ast, an: &mut Analysis, n: Node, depth: u128)
        ensures
            (final(self).collector@, final(an)@) == spec_resolve_qualified(
                ast,
                old(self).collector@,
                old(an)@,
                n,
                depth as nat,
            ),
            passed(
                ast,
                old(self).collector@,
                old(an)@,
                final(self).collector@,
                final(an)@,
                depth as nat,
            ),
            ast.kind(n) is Qualified ==> final(an)@.res.contains_key(n.index),
        decreases n.index + 1, 1nat,
    {
        proof {
            self.collector.lemma_nonempty();
            lemma_units_added_trans(an@, an@, an@);
        }
        if let Some(data) = ast.node(n) {
            if let NodeKind::Qualified { name, prefix, params } = &data.kind {
                self.visit_all(ast, an, params, n.index, depth);
                if an.res(n).is_some() {
                    return ;
                }
                let ghost c0 = old(self).collector@;
                let ghost s0 = old(an)@;
                let ghost c1 = self.collector@;
                let ghost s1 = an@;
                let res = match prefix {
                    Some(p) => {
                        if p.index < n.index {
                            self.visit(ast, an, *p, depth);
                        }
                        let ghost s2 = an@;
                        proof {
                            lemma_passed_trans(
                                ast,
                                c0,
                                s0,
                                c1,
                                s1,
                                self.collector@,
                                s2,
                                depth as nat,
                            );
                        }
                        match an.res(*p) {
                            Some(of) => {
                                let member = of.lookup_member_within(ast, an, *name, depth);
                                proof {
                                    lemma_passed_trans(
                                        ast,
                                        c0,
                                        s0,
                                        self.collector@,
                                        s2,
                                        self.collector@,
                                        an@,
                                        depth as nat,
                                    );
                                }
                                member
                            },
                            None => Res::Error,
                        }
                    },
                    None => self.collector.lookup(*name),
                };
                let ghost c3 = self.collector@;
                let ghost s3 = an@;
                if res == Res::Error {
                    an.report(Diagnostic::UnknownPath(n));
                }
                let ghost s4 = an@;
                an.attach(n, res);
                proof {
                    lemma_passed_trans(ast, c0, s0, c3, s3, c3, s4, depth as nat);
                    lemma_passed_trans(ast, c0, s0, c3, s4, c3, an@, depth as nat);
                }
            }
        }
    }

    /// Resolves a list of type parameters, as `spec_resolve_generics` says.
    pub fn resolve_generics(&mut self, ast: &Ast, an: &mut Analysis, n: Node, depth: u128)
        ensures
            (final(self).collector@, final(an)@) == spec_resolve_generics(
                ast,
                old(self).collector@,
                old(an)@,
                n,
                depth as nat,
            ),
            resolved(
                ast,
                old(self).collector@,
                old(an)@,
                final(self).collector@,
                final(an)@,
                n,
                depth as nat,
            ),
        decreases n.index + 1, 1nat,
    {
        proof {
            self.collector.lemma_nonempty();
            lemma_units_added_trans(an@, an@, an@);
        }
        match ast.node(n) {
            Some(data) => {
                self.bind_type_params(ast, &data.children);
                let ghost bound = self.collector@;
                self.visit_all(ast, an, &data.children, n.index, depth);
                proof {
                    lemma_grown_trans(old(self).collector@, bound, self.collector@);
                }
            },
            None => {
                assert(ast.children(n).len() == 0);
                assert(spec_bind_type_params(ast, self.collector@, ast.children(n), 0)
                    == self.collector@);
            },
        }
    }

    /// Resolves one node by its kind, as `spec_full_visit` says. Afterwards
    /// every identifier and qualified path that the pass walks to from `n`
    /// has a result. If `n` is an identifier that had no result, it has what
    /// its name denotes in the scope at hand.
    pub fn visit(&mut self, ast: &Ast, an: &mut Analysis, n: Node, depth: u128)
        ensures
            (final(self).collector@, final(an)@) == spec_full_visit(
                ast,
                old(self).collector@,
                old(an)@,
                n,
                depth as nat,
            ),
            passed(
                ast,
                old(self).collector@,
                old(an)@,
                final(self).collector@,
                final(an)@,
                depth as nat,
            ),
            covered(ast, final(an)@, n),
            spelled(ast, n) is Some && old(an)@.res_of(n) is None ==> final(an)@.res_of(n) == Some(
                lookup_in(old(self).collector@.frames, spelled(ast, n)->0),
            ),
        decreases n.index + 1, 2nat,
    {
        proof {
            self.collector.lemma_nonempty();
            lemma_units_added_trans(an@, an@, an@);
        }
        if let Some(data) = ast.node(n) {
            match &data.kind {
                NodeKind::Class { .. }
                | NodeKind::MixinClass { .. }
                | NodeKind::Enum { .. }
                | NodeKind::TypeAlias { .. }
                | NodeKind::Item
                | NodeKind::Part
                | NodeKind::Export { .. }
                | NodeKind::Import { .. } => {
                    self.resolve_item(ast, an, n, depth);
                    proof {
                        lemma_children_cover(ast, an@, n);
                    }
                },
                NodeKind::Function { .. } => {
                    self.resolve_function(ast, an, n, depth);
                    proof {
                        lemma_children_cover(ast, an@, n);
                    }
                },
                NodeKind::TryPart | NodeKind::Block | NodeKind::ForIn => {
                    self.in_lexical_scope(ast, an, n, depth);
                    proof {
                        lemma_children_cover(ast, an@, n);
                    }
                },
                NodeKind::VarDef { .. } => {
                    self.resolve_var_def(ast, an, n, depth);
                    proof {
                        lemma_children_cover(ast, an@, n);
                    }
                },
                NodeKind::Identifier { .. } => {
                    self.resolve_expr(ast, an, n, depth);
                    proof {
                        lemma_name_covered(ast, an@, n);
                    }
                },
                NodeKind::Qualified { .. } => {
                    self.resolve_qualified(ast, an, n, depth);
                    proof {
                        lemma_name_covered(ast, an@, n);
                    }
                },
                NodeKind::Generics => {
                    self.resolve_generics(ast, an, n, depth);
                    proof {
                        lemma_children_cover(ast, an@, n);
                    }
                },
                _ => {
                    self.visit_all(ast, an, &data.children, n.index, depth);
                    proof {
                        lemma_children_cover(ast, an@, n);
                    }
                },
            }
        } else {
            proof {
                lemma_children_cover(ast, an@, n);
            }
        }
    }

    /// Resolves `nodes`, in order, as `spec_full_visit_all` says.
    pub fn visit_all(
        &mut self,
        ast: &Ast,
        an: &mut Analysis,
        nodes: &Vec<Node>,
        bound: usize,
        depth: u128,
    )
        ensures
            (final(self).collector@, final(an)@) == spec_full_visit_all(
                ast,
                old(self).collector@,
                old(an)@,
                nodes@,
                0,
                bound as nat,
                depth as nat,
            ),
            passed(
                ast,
                old(self).collector@,
                old(an)@,
                final(self).collector@,
                final(an)@,
                depth as nat,
            ),
            covered_upto(ast, final(an)@, nodes@, nodes.len() as int, bound as nat),
        decreases bound, nodes.len() + 3,
    {
        proof {
            self.collector.lemma_nonempty();
            lemma_units_added_trans(an@, an@, an@);
        }
        let mut i: usize = 0;
        while i < nodes.len()
            invariant
                i <= nodes.len(),
                spec_full_visit_all(
                    ast,
                    self.collector@,
                    an@,
                    nodes@,
                    i as int,
                    bound as nat,
                    depth as nat,
                ) == spec_full_visit_all(
                    ast,
                    old(self).collector@,
                    old(an)@,
                    nodes@,
                    0,
                    bound as nat,
                    depth as nat,
                ),
                passed(ast, old(self).collector@, old(an)@, self.collector@, an@, depth as nat),
                covered_upto(ast, an@, nodes@, i as int, bound as nat),
            decreases nodes.len() - i,
        {
            let ghost before = self.collector@;
            let ghost state_before = an@;
            if nodes[i].index < bound {
                self.visit(ast, an, nodes[i], depth);
                proof {
                    lemma_passed_trans(
                        ast,
                        old(self).collector@,
                        old(an)@,
                        before,
                        state_before,
                        self.collector@,
                        an@,
                        depth as nat,
                    );
                    lemma_covered_kept(ast, state_before, an@, nodes@, i as int, bound as nat);
                }
            }
            i = i + 1;
        }
    }
}

/// Resolves the unit `module`, as `spec_resolve` says: always the names of
/// types, and with `fully_resolve` every identifier and path in the unit.
/// The answer is whether resolution went beyond collecting: it does not when
/// a unit that `module` imports had failed to load.
///
/// Nothing that was attached or kept before is lost. Resolution that
/// stops after collecting attaches no result at all.
///
/// When resolution went through, the heritage of the classes is resolved:
/// every heritage clause of a class that stands in the unit, as an item or
/// below one, that is a path without prefix, had no result, and whose name
/// the scope of the unit binds to something other than `Res::Error`, has
/// exactly that as its result.
///
/// Without `fully_resolve`, only qualified paths get a result: every
/// identifier is left as it was, and no diagnostic is raised but about the
/// export table of a unit. With it, and when resolution went through, every
/// identifier and qualified path that the full pass walks to from an item
/// of the unit has a result.
///
/// The nesting limit is never reached.
pub fn resolve(ast: &Ast, an: &mut Analysis, module: Module, fully_resolve: bool) -> (completed:
    bool)
    ensures
        final(an)@ == spec_resolve(ast, old(an)@, module, fully_resolve, ast.depth_limit()),
        completed == !spec_collect_unit(ast, old(an)@, module, ast.depth_limit()).0.has_error,
        !completed ==> old(an)@.units_added(final(an)@),
        old(an)@.kept_by(final(an)@),
        completed ==> forall|j: int, c: Node, q: Node|
            0 <= j < ast.items(module).len() && ast.items(module)[j].index < ast.nodes().len()
                && #[trigger] goes(ast, ast.items(module)[j], c) && #[trigger] clause_of(ast, c, q)
                && old(an)@.res_of(q) is None && resolvable(
                ast,
                spec_collect_unit(ast, old(an)@, module, ast.depth_limit()).0.frames,
                q,
            ) ==> final(an)@.res_of(q) == Some(
                lookup_in(
                    spec_collect_unit(ast, old(an)@, module, ast.depth_limit()).0.frames,
                    bare_name(ast, q)->0,
                ),
            ),
        !fully_resolve ==> forall|n: Node|
            !(ast.kind(n) is Qualified) ==> #[trigger] final(an)@.res_of(n) == old(an)@.res_of(n),
        !fully_resolve ==> old(an)@.units_blamed(final(an)@),
        fully_resolve && completed ==> covered_upto(
            ast,
            final(an)@,
            ast.items(module),
            ast.items(module).len() as int,
            ast.nodes().len(),
        ),
        old(an)@.quiet_until(final(an)@),
{
    let depth = ast.nesting_limit();
    let collector = resolve_types(ast, an, module, depth);
    proof {
        assert forall|n: Node| !(ast.kind(n) is Qualified) implies #[trigger] an@.res_of(n)
            == old(an)@.res_of(n) by {
            if an@.res.contains_key(n.index) && !old(an)@.res.contains_key(n.index) {
                assert(ast.kind(Node { index: n.index }) is Qualified);
            }
            if old(an)@.res.dom().contains(n.index) {
                assert(an@.res.dom().contains(n.index));
            }
        }
    }
    if collector.has_error() {
        return false;
    }
    let ghost frames = collector@.frames;
    let ghost typed = an@;
    proof {
        assert forall|j: int, c: Node, q: Node|
            0 <= j < ast.items(module).len() && ast.items(module)[j].index < ast.nodes().len()
                && #[trigger] goes(ast, ast.items(module)[j], c) && #[trigger] clause_of(ast, c, q)
                && old(an)@.res_of(q) is None && resolvable(
                ast,
                frames,
                q,
            ) implies typed.res_of(q) == Some(lookup_in(frames, bare_name(ast, q)->0)) by {
            assert(reached(ast, frames, typed, ast.items(module)[j]));
            assert(settled_at(ast, frames, typed, c));
            assert(typed.res.contains_key(q.index) && !old(an)@.res.contains_key(q.index));
        }
    }
    if fully_resolve {
        let mut resolver = Resolver { collector };
        match ast.module(module) {
            Some(data) => {
                resolver.visit_all(ast, an, &data.items, ast.node_count(), depth);
            },
            None => {
                assert(ast.items(module).len() == 0);
            },
        }
        proof {
            lemma_kept_trans(old(an)@, typed, an@);
            lemma_within_trans(ast, old(an)@, typed, an@, depth as nat);
            assert forall|j: int, c: Node, q: Node|
                0 <= j < ast.items(module).len() && ast.items(module)[j].index
                    < ast.nodes().len() && #[trigger] goes(ast, ast.items(module)[j], c)
                    && #[trigger] clause_of(ast, c, q) && old(an)@.res_of(q) is None && resolvable(
                    ast,
                    frames,
                    q,
                ) implies an@.res_of(q) == Some(lookup_in(frames, bare_name(ast, q)->0)) by {
                assert(typed.res.dom().contains(q.index));
            }
        }
    }
    true
}

} // verus!
