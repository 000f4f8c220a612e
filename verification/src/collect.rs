//! Collecting declarations: the pass that binds every name a unit or a class
//! declares, expands import and export directives, and computes the export
//! table of a compilation unit.
//!
//! Each executable function is specified by a function over the mathematical
//! state that does the same step.
//!
//! Computations of export tables nest: the table of a unit may need the
//! table of a unit that it exports. A table that is being computed is marked
//! as in progress, and whoever asks for it meanwhile gets a diagnostic and no
//! table, so no table waits for itself. `depth` bounds the nesting. The depth
//! that the entry points start with, one level for each node and unit, is
//! never used up: see `within_limit`.

use vstd::prelude::*;
use crate::analysis::{
    lemma_calm_trans, lemma_unit_begun, lemma_unit_finished, lemma_units_added_trans, Analysis,
    Cached, Diagnostic, Slot, State,
};
use crate::ast::{Ast, FnName, ImportFilter, NodeKind};
use crate::res::{
    Module, Node, Res, Symbol, SYM_DYNAMIC, SYM_FALSE, SYM_NULL, SYM_TRUE, SYM_VOID,
};
use crate::scope::{
    bind, flatten, lemma_bind_overlay_grow, lemma_flatten_lookup, lemma_with_local_grows,
    local_growth, lookup_in, overlay, with_local, Frame, ScopeChain,
};

verus! {

/// A collector as a mathematical value.
pub struct CollectorView {
    pub frames: Seq<Frame>,
    pub exports_only: bool,
    pub has_error: bool,
}

impl CollectorView {
    pub open spec fn bind(self, name: Symbol, res: Res) -> CollectorView {
        CollectorView { frames: bind(self.frames, name, res), ..self }
    }

    pub open spec fn with_frames(self, frames: Seq<Frame>) -> CollectorView {
        CollectorView { frames, ..self }
    }

    /// `later` came from `self` by binding names: only the local frame
    /// differs, it binds what it bound, the mode is the same and a failure
    /// that was noted is still noted.
    pub open spec fn grown_to(self, later: CollectorView) -> bool {
        &&& local_growth(self.frames, later.frames)
        &&& later.exports_only == self.exports_only
        &&& self.has_error ==> later.has_error
    }

    /// The collector that computes an export table: one empty frame, and
    /// only export directives are followed.
    pub open spec fn exporting() -> CollectorView {
        CollectorView { frames: seq![Map::empty()], exports_only: true, has_error: false }
    }

    /// The collector that a resolution starts from: the five built-in names.
    pub open spec fn initial() -> CollectorView {
        CollectorView {
            frames: seq![
                map![
                    SYM_VOID => Res::Void,
                    SYM_DYNAMIC => Res::Dynamic,
                    SYM_NULL => Res::Null,
                    SYM_FALSE => Res::False,
                    SYM_TRUE => Res::True,
                ],
            ],
            exports_only: false,
            has_error: false,
        }
    }
}

/// Whether `n` is a function or a variable that declares `name`.
pub open spec fn declares_directly(ast: &Ast, n: Node, name: Symbol) -> bool {
    match ast.kind(n) {
        NodeKind::Function { name: FnName::Regular(s) } => s == name,
        NodeKind::Function { name: FnName::Getter(s) } => s == name,
        NodeKind::Function { name: FnName::Setter(s) } => s == name,
        NodeKind::VarDef { name: s } => s == name,
        _ => false,
    }
}

/// Whether the declaration `n` declares `name`: by itself, or, for a
/// top-level declaration or a class member that holds functions or
/// variables, through one of them.
pub open spec fn declares(ast: &Ast, n: Node, name: Symbol) -> bool {
    match ast.kind(n) {
        NodeKind::Class { name: s, .. } => s == name,
        NodeKind::MixinClass { name: s, .. } => s == name,
        NodeKind::Enum { name: s } => s == name,
        NodeKind::TypeAlias { name: s } => s == name,
        NodeKind::Constructor { name: Some(s) } => s == name,
        NodeKind::Item => exists|j: int|
            0 <= j < ast.children(n).len() && declares_directly(
                ast,
                #[trigger] ast.children(n)[j],
                name,
            ),
        NodeKind::Member => exists|j: int|
            0 <= j < ast.children(n).len() && declares_directly(
                ast,
                #[trigger] ast.children(n)[j],
                name,
            ),
        _ => declares_directly(ast, n, name),
    }
}

/// What the declaration `n` binds its name to, if it binds one by itself.
pub open spec fn declared_res(ast: &Ast, n: Node) -> Res {
    match ast.kind(n) {
        NodeKind::Class { .. } => Res::Class(n),
        NodeKind::MixinClass { .. } => Res::Class(n),
        NodeKind::Enum { .. } => Res::Enum(n),
        NodeKind::TypeAlias { .. } => Res::TypeAlias(n),
        NodeKind::Constructor { .. } => Res::Constructor(n),
        NodeKind::Function { name: FnName::Getter(_) } => Res::Getter(n),
        NodeKind::Function { name: FnName::Setter(_) } => Res::Setter(n),
        NodeKind::Function { .. } => Res::Function(n),
        NodeKind::VarDef { .. } => Res::Var(n),
        _ => Res::Error,
    }
}

/// Whether the declaration `n` binds `name` to `res`: by itself, or, for a
/// top-level declaration or a class member that holds functions or
/// variables, through one of them.
pub open spec fn binds(ast: &Ast, n: Node, name: Symbol, res: Res) -> bool {
    match ast.kind(n) {
        NodeKind::Item => exists|j: int|
            0 <= j < ast.children(n).len() && declares_directly(
                ast,
                #[trigger] ast.children(n)[j],
                name,
            ) && res == declared_res(ast, ast.children(n)[j]),
        NodeKind::Member => exists|j: int|
            0 <= j < ast.children(n).len() && declares_directly(
                ast,
                #[trigger] ast.children(n)[j],
                name,
            ) && res == declared_res(ast, ast.children(n)[j]),
        _ => declares(ast, n, name) && res == declared_res(ast, n),
    }
}

/// Whether `n` is no directive and no part: what it adds to a scope, it
/// declares itself.
pub open spec fn plain(ast: &Ast, n: Node) -> bool {
    !(ast.kind(n) is Part) && !(ast.kind(n) is Export) && !(ast.kind(n) is Import)
}

/// Every binding of `after` is a binding of `before` or one that `n` binds.
pub open spec fn only_bound_by(ast: &Ast, before: Frame, after: Frame, n: Node) -> bool {
    forall|name: Symbol| #[trigger]
        after.contains_key(name) ==> (before.contains_key(name) && after[name] == before[name])
            || binds(ast, n, name, after[name])
}

/// Every binding of `after` is a binding of `before` or one that one of the
/// declarations `nodes[..upto]` below `bound` binds.
pub open spec fn only_bound(
    ast: &Ast,
    before: Frame,
    after: Frame,
    nodes: Seq<Node>,
    upto: int,
    bound: nat,
) -> bool {
    forall|name: Symbol| #[trigger]
        after.contains_key(name) ==> (before.contains_key(name) && after[name] == before[name])
            || exists|j: int|
            0 <= j < upto && j < nodes.len() && (#[trigger] nodes[j]).index < bound && binds(
                ast,
                nodes[j],
                name,
                after[name],
            )
}

/// Every binding of `after` is a binding of `before` or what the function or
/// variable `n` binds.
pub open spec fn only_declared_by(ast: &Ast, before: Frame, after: Frame, n: Node) -> bool {
    forall|name: Symbol| #[trigger]
        after.contains_key(name) ==> (before.contains_key(name) && after[name] == before[name])
            || (declares_directly(ast, n, name) && after[name] == declared_res(ast, n))
}

/// Every binding of `after` is a binding of `before` or what one of the
/// functions and variables `nodes[..upto]` binds.
pub open spec fn only_declared(
    ast: &Ast,
    before: Frame,
    after: Frame,
    nodes: Seq<Node>,
    upto: int,
) -> bool {
    forall|name: Symbol| #[trigger]
        after.contains_key(name) ==> (before.contains_key(name) && after[name] == before[name])
            || exists|j: int|
            0 <= j < upto && j < nodes.len() && declares_directly(ast, #[trigger] nodes[j], name)
                && after[name] == declared_res(ast, nodes[j])
}

/// Whether none of `nodes` is a directive or a part.
pub open spec fn all_plain(ast: &Ast, nodes: Seq<Node>) -> bool {
    forall|j: int| 0 <= j < nodes.len() ==> plain(ast, #[trigger] nodes[j])
}

/// Merging through filters is a local growth of the receiving scope.
pub(crate) proof fn lemma_filtered_grows(
    dst: Seq<Frame>,
    src: Seq<Frame>,
    filters: Seq<ImportFilter>,
    i: int,
)
    requires
        dst.len() > 0,
    ensures
        local_growth(dst, filtered(dst, src, filters, i)),
    decreases filters.len() - i,
{
    if 0 <= i < filters.len() {
        if filters[i].hide {
            lemma_filtered_grows(dst, hidden(src, filters[i].names@), filters, i + 1);
        } else {
            lemma_with_local_grows(
                dst,
                dst.last().union_prefer_right(
                    Map::new(
                        |k: Symbol| filters[i].names@.contains(k),
                        |k: Symbol| lookup_in(src, k),
                    ),
                ),
            );
        }
    } else {
        lemma_bind_overlay_grow(dst, 0, Res::Error, src);
    }
}

/// A table of one frame binds what the frame binds.
pub(crate) proof fn lemma_single_frame(frame: Frame, name: Symbol)
    ensures
        flatten(seq![frame]) == frame,
        lookup_in(seq![frame], name) == if frame.contains_key(name) {
            frame[name]
        } else {
            Res::Error
        },
{
    let frames = seq![frame];
    assert(frames.drop_last().len() == 0);
    assert(frames.last() == frame);
    reveal_with_fuel(flatten, 2);
    reveal_with_fuel(lookup_in, 2);
    assert(flatten(frames) =~= frame);
}

/// A merge whose first filter is a `show` filter binds the names that the
/// filter lists, each to what it denotes in the source, and nothing else:
/// a listed name then denotes what it denotes in the source, any other
/// name is bound, or not bound, as it was before and denotes what it
/// denoted.
pub proof fn lemma_show_binds_listed(
    dst: Seq<Frame>,
    src: Seq<Frame>,
    filters: Seq<ImportFilter>,
    name: Symbol,
)
    requires
        dst.len() > 0,
        filters.len() > 0,
        !filters[0].hide,
    ensures
        ({
            let merged = filtered(dst, src, filters, 0);
            let listed = filters[0].names@.contains(name);
            &&& merged.len() == dst.len()
            &&& merged.drop_last() == dst.drop_last()
            &&& listed ==> merged.last().contains_key(name) && merged.last()[name] == lookup_in(
                src,
                name,
            )
            &&& !listed ==> (merged.last().contains_key(name) <==> dst.last().contains_key(name))
            &&& !listed && dst.last().contains_key(name) ==> merged.last()[name]
                == dst.last()[name]
            &&& lookup_in(merged, name) == if listed {
                lookup_in(src, name)
            } else {
                lookup_in(dst, name)
            }
        }),
{
    lemma_filtered_grows(dst, src, filters, 0);
}

/// Whether one of `filters[i..]` lists `name`.
pub open spec fn listed_from(filters: Seq<ImportFilter>, i: int, name: Symbol) -> bool {
    exists|j: int| i <= j < filters.len() && (#[trigger] filters[j]).names@.contains(name)
}

/// A merge through `hide` filters only binds every name that the source
/// table binds, in whichever of its frames, except the hidden ones: such a
/// name then denotes what it denotes in the source. A hidden name, and a
/// name that the source does not bind, is bound, or not bound, as it was
/// before and denotes what it denoted.
pub proof fn lemma_hide_binds_rest(
    dst: Seq<Frame>,
    src: Seq<Frame>,
    filters: Seq<ImportFilter>,
    i: int,
    name: Symbol,
)
    requires
        dst.len() > 0,
        0 <= i,
        forall|j: int| i <= j < filters.len() ==> (#[trigger] filters[j]).hide,
    ensures
        ({
            let merged = filtered(dst, src, filters, i);
            let exported = flatten(src).contains_key(name) && !listed_from(filters, i, name);
            &&& merged.len() == dst.len()
            &&& merged.drop_last() == dst.drop_last()
            &&& exported ==> merged.last().contains_key(name) && merged.last()[name]
                == lookup_in(src, name)
            &&& !exported ==> (merged.last().contains_key(name) <==> dst.last().contains_key(
                name,
            ))
            &&& !exported && dst.last().contains_key(name) ==> merged.last()[name]
                == dst.last()[name]
            &&& lookup_in(merged, name) == if exported {
                lookup_in(src, name)
            } else {
                lookup_in(dst, name)
            }
        }),
    decreases filters.len() - i,
{
    lemma_filtered_grows(dst, src, filters, i);
    lemma_flatten_lookup(src, name);
    if i < filters.len() {
        let names = filters[i].names@;
        let left = flatten(src).remove_keys(names.to_set());
        let rest = hidden(src, names);
        lemma_single_frame(left, name);
        lemma_hide_binds_rest(dst, rest, filters, i + 1, name);
        if listed_from(filters, i, name) {
            let j = choose|j: int|
                i <= j < filters.len() && (#[trigger] filters[j]).names@.contains(name);
            if j > i {
                assert(listed_from(filters, i + 1, name));
            }
        }
        if listed_from(filters, i + 1, name) {
            let j = choose|j: int|
                i + 1 <= j < filters.len() && (#[trigger] filters[j]).names@.contains(name);
            assert(i <= j < filters.len() && filters[j].names@.contains(name));
        }
        if names.contains(name) {
            assert(filters[i].names@.contains(name));
        }
    }
}

/// Where `depth` was enough in `before` for the tables of `ast` that were
/// not in progress, the nesting limit was not reached on the way to `after`.
pub open spec fn within_limit(ast: &Ast, before: State, after: State, depth: nat) -> bool {
    before.calm(after, ast.nodes().len(), ast.modules().len(), depth)
}

/// Two steps within the limit, each keeping what was there, make a step
/// within the limit.
pub(crate) proof fn lemma_within_trans(ast: &Ast, a: State, b: State, c: State, depth: nat)
    requires
        a.kept_by(b) || a.units_added(b),
        b.kept_by(c) || b.units_added(c),
        within_limit(ast, a, b, depth),
        within_limit(ast, b, c, depth),
    ensures
        within_limit(ast, a, c, depth),
{
    ast.lemma_sizes();
    lemma_calm_trans(a, b, c, ast.nodes().len(), ast.modules().len(), depth);
}

/// Growth of a collector composes.
pub(crate) proof fn lemma_grown_trans(a: CollectorView, b: CollectorView, c: CollectorView)
    requires
        a.grown_to(b),
        b.grown_to(c),
    ensures
        a.grown_to(c),
{
}

/// The binding that a function declaration adds.
pub open spec fn spec_collect_function(ast: &Ast, cv: CollectorView, n: Node) -> CollectorView {
    match ast.kind(n) {
        NodeKind::Function { name: FnName::Regular(name) } => cv.bind(name, Res::Function(n)),
        NodeKind::Function { name: FnName::Getter(name) } => cv.bind(name, Res::Getter(n)),
        NodeKind::Function { name: FnName::Setter(name) } => cv.bind(name, Res::Setter(n)),
        _ => cv,
    }
}

/// The binding that a variable declaration adds.
pub open spec fn spec_collect_var_def(ast: &Ast, cv: CollectorView, n: Node) -> CollectorView {
    match ast.kind(n) {
        NodeKind::VarDef { name } => cv.bind(name, Res::Var(n)),
        _ => cv,
    }
}

/// The bindings that the functions and variables among `nodes[i..]` add, in order.
pub open spec fn spec_collect_declared(
    ast: &Ast,
    cv: CollectorView,
    nodes: Seq<Node>,
    i: int,
) -> CollectorView
    decreases nodes.len() - i,
{
    if 0 <= i < nodes.len() {
        let step = spec_collect_var_def(ast, spec_collect_function(ast, cv, nodes[i]), nodes[i]);
        spec_collect_declared(ast, step, nodes, i + 1)
    } else {
        cv
    }
}

/// The bindings that a class member adds: a named constructor binds its
/// name, any other member binds the functions and variables it holds.
pub open spec fn spec_collect_class_member(ast: &Ast, cv: CollectorView, n: Node) -> CollectorView {
    match ast.kind(n) {
        NodeKind::Constructor { name: Some(name) } => cv.bind(name, Res::Constructor(n)),
        NodeKind::Member => spec_collect_declared(ast, cv, ast.children(n), 0),
        _ => cv,
    }
}

/// The table `src` without the names in `names`: all that `src` binds in
/// any of its frames, in one frame, but for those names.
pub open spec fn hidden(src: Seq<Frame>, names: Seq<Symbol>) -> Seq<Frame> {
    seq![flatten(src).remove_keys(names.to_set())]
}

/// `dst` with each of `names` bound locally to what it denotes in `src`
/// (`Res::Error` where `src` does not bind it).
pub open spec fn shown(dst: Seq<Frame>, src: Seq<Frame>, names: Seq<Symbol>) -> Seq<Frame> {
    with_local(
        dst,
        dst.last().union_prefer_right(
            Map::new(|k: Symbol| names.contains(k), |k: Symbol| lookup_in(src, k)),
        ),
    )
}

/// `dst` after merging `src` through `filters[i..]`. A `hide` filter drops its
/// names from `src`, whichever frame binds them, and goes on; the first
/// `show` filter binds its names and ends the merge, whatever follows it.
/// Without a `show` filter all that is left of `src` is merged.
pub open spec fn filtered(
    dst: Seq<Frame>,
    src: Seq<Frame>,
    filters: Seq<ImportFilter>,
    i: int,
) -> Seq<Frame>
    decreases filters.len() - i,
{
    if 0 <= i < filters.len() {
        if filters[i].hide {
            filtered(dst, hidden(src, filters[i].names@), filters, i + 1)
        } else {
            shown(dst, src, filters[i].names@)
        }
    } else {
        overlay(dst, src)
    }
}

/// The export table of the unit `m` and the state after computing it.
/// A handle that names no unit has an empty table. A table that is kept is
/// returned as it is. A table that is being computed, or one asked for with
/// no depth left, gives `None` and a diagnostic. Otherwise the items of the
/// unit are collected into one empty frame, with only export directives
/// followed, and the result is kept.
pub open spec fn spec_module_exports(ast: &Ast, st: State, m: Module, depth: nat) -> (
    Option<Seq<Frame>>,
    State,
)
    decreases depth, 0nat, 0nat,
{
    if !ast.has_module(m) {
        (Some(seq![Map::empty()]), st)
    } else {
        match st.module_slot(m) {
            Some(Slot::Ready(frames)) => (Some(frames), st),
            Some(Slot::Busy) => (None, st.report(Diagnostic::CyclicExport(m))),
            None => if depth == 0 {
                (None, st.report(Diagnostic::NestingLimit))
            } else {
                let (cv, done) = spec_collect_all(
                    ast,
                    CollectorView::exporting(),
                    st.with_module(m, Slot::Busy),
                    ast.items(m),
                    0,
                    ast.nodes().len(),
                    (depth - 1) as nat,
                );
                (Some(cv.frames), done.with_module(m, Slot::Ready(cv.frames)))
            },
        }
    }
}

/// Asking twice for the export table of a unit gives the same table twice,
/// and the second request changes nothing, whatever depth it is given:
/// the table is computed once. (A table that is in progress is no table
/// yet, and without depth none is computed.)
pub proof fn lemma_module_exports_once(ast: &Ast, st: State, m: Module, depth: nat, again: nat)
    requires
        st.module_slot(m) != Some(Slot::Busy),
        depth > 0,
    ensures
        ({
            let (first, kept) = spec_module_exports(ast, st, m, depth);
            let (second, after) = spec_module_exports(ast, kept, m, again);
            &&& first is Some
            &&& second == first
            &&& after == kept
        }),
{
}

/// An import of the unit `target`: the collector remembers a failed load,
/// binds the alias to the unit, and merges the unit's export table through
/// the filters. Nothing is merged when the table cannot be had.
pub open spec fn spec_import(
    ast: &Ast,
    cv: CollectorView,
    st: State,
    target: Module,
    filters: Seq<ImportFilter>,
    alias: Option<Symbol>,
    depth: nat,
) -> (CollectorView, State)
    decreases depth, 0nat, 1nat,
{
    let flagged = CollectorView { has_error: cv.has_error || ast.failed(target), ..cv };
    let named = match alias {
        Some(name) => flagged.bind(name, Res::Module(target)),
        None => flagged,
    };
    let (table, done) = spec_module_exports(ast, st, target, depth);
    match table {
        Some(exported) => (named.with_frames(filtered(named.frames, exported, filters, 0)), done),
        None => (named, done),
    }
}

/// An import without alias through `hide` filters only, of a unit whose
/// export table can be had: a name that the table binds and no filter lists
/// denotes afterwards what it denotes in the table; any other name denotes
/// what it denoted before.
pub proof fn lemma_import_hiding(
    ast: &Ast,
    cv: CollectorView,
    st: State,
    target: Module,
    filters: Seq<ImportFilter>,
    depth: nat,
    name: Symbol,
)
    requires
        cv.frames.len() > 0,
        forall|j: int| 0 <= j < filters.len() ==> (#[trigger] filters[j]).hide,
        spec_module_exports(ast, st, target, depth).0 is Some,
    ensures
        ({
            let table = spec_module_exports(ast, st, target, depth).0->0;
            let after = spec_import(ast, cv, st, target, filters, None, depth).0;
            lookup_in(after.frames, name) == if flatten(table).contains_key(name) && !listed_from(
                filters,
                0,
                name,
            ) {
                lookup_in(table, name)
            } else {
                lookup_in(cv.frames, name)
            }
        }),
{
    let table = spec_module_exports(ast, st, target, depth).0->0;
    lemma_hide_binds_rest(cv.frames, table, filters, 0, name);
}

/// An import without alias whose first filter is a `show` filter, of a unit
/// whose export table can be had: a name that the filter lists denotes
/// afterwards what it denotes in the table; any other name denotes what it
/// denoted before.
pub proof fn lemma_import_showing(
    ast: &Ast,
    cv: CollectorView,
    st: State,
    target: Module,
    filters: Seq<ImportFilter>,
    depth: nat,
    name: Symbol,
)
    requires
        cv.frames.len() > 0,
        filters.len() > 0,
        !filters[0].hide,
        spec_module_exports(ast, st, target, depth).0 is Some,
    ensures
        ({
            let table = spec_module_exports(ast, st, target, depth).0->0;
            let after = spec_import(ast, cv, st, target, filters, None, depth).0;
            lookup_in(after.frames, name) == if filters[0].names@.contains(name) {
                lookup_in(table, name)
            } else {
                lookup_in(cv.frames, name)
            }
        }),
{
    let table = spec_module_exports(ast, st, target, depth).0->0;
    lemma_show_binds_listed(cv.frames, table, filters, name);
}

/// What one top-level item adds. A part adds what its items add. An export
/// directive is followed only when an export table is computed; an import
/// directive only when it is not, and not when the import is deferred.
pub open spec fn spec_collect_item(
    ast: &Ast,
    cv: CollectorView,
    st: State,
    n: Node,
    depth: nat,
) -> (CollectorView, State)
    decreases depth, n.index + 1, 0nat,
{
    match ast.kind(n) {
        NodeKind::Class { name, .. } => (cv.bind(name, Res::Class(n)), st),
        NodeKind::MixinClass { name, .. } => (cv.bind(name, Res::Class(n)), st),
        NodeKind::Enum { name } => (cv.bind(name, Res::Enum(n)), st),
        NodeKind::TypeAlias { name } => (cv.bind(name, Res::TypeAlias(n)), st),
        NodeKind::Item => (spec_collect_declared(ast, cv, ast.children(n), 0), st),
        NodeKind::Part => spec_collect_all(ast, cv, st, ast.children(n), 0, n.index as nat, depth),
        NodeKind::Export { module, filters } => if cv.exports_only {
            spec_import(ast, cv, st, module, filters@, None, depth)
        } else {
            (cv, st)
        },
        NodeKind::Import { module, filters, alias, deferred } => if !deferred && !cv.exports_only {
            spec_import(ast, cv, st, module, filters@, alias, depth)
        } else {
            (cv, st)
        },
        _ => (cv, st),
    }
}

/// What one declaration adds, whatever its kind.
pub open spec fn spec_collect(ast: &Ast, cv: CollectorView, st: State, n: Node, depth: nat) -> (
    CollectorView,
    State,
)
    decreases depth, n.index + 1, 1nat,
{
    match ast.kind(n) {
        NodeKind::Constructor { .. } => (spec_collect_class_member(ast, cv, n), st),
        NodeKind::Member => (spec_collect_class_member(ast, cv, n), st),
        NodeKind::Function { .. } => (spec_collect_function(ast, cv, n), st),
        NodeKind::VarDef { .. } => (spec_collect_var_def(ast, cv, n), st),
        _ => spec_collect_item(ast, cv, st, n, depth),
    }
}

/// What the declarations `nodes[i..]` add, in order. A handle at or above
/// `bound` is passed over: a node only holds nodes that were added before it.
pub open spec fn spec_collect_all(
    ast: &Ast,
    cv: CollectorView,
    st: State,
    nodes: Seq<Node>,
    i: int,
    bound: nat,
    depth: nat,
) -> (CollectorView, State)
    decreases depth, bound, nodes.len() - i + 2,
{
    if 0 <= i < nodes.len() {
        if nodes[i].index < bound {
            let (cv1, st1) = spec_collect(ast, cv, st, nodes[i], depth);
            spec_collect_all(ast, cv1, st1, nodes, i + 1, bound, depth)
        } else {
            spec_collect_all(ast, cv, st, nodes, i + 1, bound, depth)
        }
    } else {
        (cv, st)
    }
}

/// The frames of a table that may be missing.
pub open spec fn frames_of(table: Option<ScopeChain>) -> Option<Seq<Frame>> {
    match table {
        Some(chain) => Some(chain@),
        None => None,
    }
}

/// Collects the names that a unit or a class declares.
pub struct Collector {
    scope: ScopeChain,
    exports_only: bool,
    has_error: bool,
}

impl View for Collector {
    type V = CollectorView;

    closed spec fn view(&self) -> CollectorView {
        CollectorView {
            frames: self.scope@,
            exports_only: self.exports_only,
            has_error: self.has_error,
        }
    }
}

impl Collector {
    /// A collector always has a frame.
    pub proof fn lemma_nonempty(&self)
        ensures
            self@.frames.len() > 0,
    {
        self.scope.lemma_nonempty();
    }

    /// Whether a unit that was imported had failed to load.
    pub fn has_error(&self) -> (failed: bool)
        ensures
            failed == self@.has_error,
    {
        self.has_error
    }

    /// A collector for resolving a unit: it knows the five built-in names.
    pub fn new() -> (collector: Collector)
        ensures
            collector@ == CollectorView::initial(),
    {
        let mut collector = Collector {
            scope: ScopeChain::new(None),
            exports_only: false,
            has_error: false,
        };
        collector.record(SYM_VOID, Res::Void);
        collector.record(SYM_DYNAMIC, Res::Dynamic);
        collector.record(SYM_NULL, Res::Null);
        collector.record(SYM_FALSE, Res::False);
        collector.record(SYM_TRUE, Res::True);
        assert(collector@.frames =~= CollectorView::initial().frames) by {
            assert(collector@.frames[0] =~= CollectorView::initial().frames[0]);
        }
        collector
    }

    /// A collector for computing an export table.
    pub fn exporting() -> (collector: Collector)
        ensures
            collector@ == CollectorView::exporting(),
    {
        Collector { scope: ScopeChain::new(None), exports_only: true, has_error: false }
    }

    /// The scope collected so far.
    pub fn scope(&self) -> (scope: &ScopeChain)
        ensures
            scope@ == self@.frames,
    {
        &self.scope
    }

    /// Gives up the collector for the scope it collected.
    pub fn into_scope(self) -> (scope: ScopeChain)
        ensures
            scope@ == self@.frames,
    {
        self.scope
    }

    /// Binds `name` in the local frame; the last binding of a name wins.
    pub fn record(&mut self, name: Symbol, res: Res)
        ensures
            final(self)@ == old(self)@.bind(name, res),
            old(self)@.grown_to(final(self)@),
            final(self)@.frames.last() == old(self)@.frames.last().insert(name, res),
    {
        proof {
            self.scope.lemma_nonempty();
            lemma_bind_overlay_grow(self@.frames, name, res, self@.frames);
        }
        self.scope.record(name, res);
    }

    /// Looks `name` up in the scope collected so far.
    pub fn lookup(&self, name: Symbol) -> (res: Res)
        ensures
            res == lookup_in(self@.frames, name),
    {
        self.scope.lookup(name)
    }

    /// Merges `scope` whole into the local frame.
    pub fn extend(&mut self, scope: &ScopeChain)
        ensures
            final(self)@ == old(self)@.with_frames(overlay(old(self)@.frames, scope@)),
            old(self)@.grown_to(final(self)@),
    {
        proof {
            self.scope.lemma_nonempty();
            lemma_bind_overlay_grow(self@.frames, 0, Res::Error, scope@);
        }
        self.scope.extend(scope);
    }

    /// Puts the local frame on top of `parent`.
    pub fn set_parent(&mut self, parent: ScopeChain)
        ensures
            final(self)@ == old(self)@.with_frames(parent@.push(old(self)@.frames.last())),
    {
        self.scope.set_parent(parent);
    }

    /// Opens a fresh local frame.
    pub fn enter(&mut self)
        ensures
            final(self)@ == old(self)@.with_frames(old(self)@.frames.push(Map::empty())),
    {
        self.scope.enter();
    }

    /// Closes the local frame.
    pub fn leave(&mut self)
        ensures
            final(self)@ == old(self)@.with_frames(
                if old(self)@.frames.len() > 1 {
                    old(self)@.frames.drop_last()
                } else {
                    old(self)@.frames
                },
            ),
    {
        self.scope.leave();
    }

    /// Binds each of `names` to what it denotes in `exported`.
    fn show(&mut self, exported: &ScopeChain, names: &Vec<Symbol>)
        ensures
            final(self)@ == old(self)@.with_frames(shown(old(self)@.frames, exported@, names@)),
    {
        let ghost start = self@;
        proof {
            self.scope.lemma_nonempty();
            assert(names@.subrange(0, 0) =~= Seq::<Symbol>::empty());
            assert(self@.frames =~= shown(start.frames, exported@, names@.subrange(0, 0))) by {
                assert(start.frames.last().union_prefer_right(
                    Map::new(
                        |k: Symbol| Seq::<Symbol>::empty().contains(k),
                        |k: Symbol| lookup_in(exported@, k),
                    ),
                ) =~= start.frames.last());
                assert(start.frames.drop_last().push(start.frames.last()) =~= start.frames);
            }
        }
        let mut j: usize = 0;
        while j < names.len()
            invariant
                j <= names.len(),
                start.frames.len() > 0,
                self@ == start.with_frames(
                    shown(start.frames, exported@, names@.subrange(0, j as int)),
                ),
            decreases names.len() - j,
        {
            let name = names[j];
            self.record(name, exported.lookup(name));
            proof {
                let before = names@.subrange(0, j as int);
                let after = names@.subrange(0, j + 1);
                assert(after =~= before.push(name));
                assert forall|k: Symbol|
                    after.contains(k) <==> (before.contains(k) || k == name) by {
                    if before.contains(k) {
                        let w = choose|w: int| 0 <= w < before.len() && before[w] == k;
                        assert(after[w] == k);
                    }
                    if k == name {
                        assert(after[j as int] == k);
                    }
                }
                assert(shown(start.frames, exported@, after).last() =~= shown(
                    start.frames,
                    exported@,
                    before,
                ).last().insert(name, lookup_in(exported@, name)));
                assert(self@.frames =~= shown(start.frames, exported@, after));
            }
            j = j + 1;
        }
        assert(names@.subrange(0, j as int) =~= names@);
    }

    /// Merges `exported` through `filters`, as `filtered` says.
    #[verifier::loop_isolation(false)]
    pub fn merge(&mut self, exported: ScopeChain, filters: &Vec<ImportFilter>)
        ensures
            final(self)@ == old(self)@.with_frames(
                filtered(old(self)@.frames, exported@, filters@, 0),
            ),
            old(self)@.grown_to(final(self)@),
    {
        proof {
            self.scope.lemma_nonempty();
            lemma_filtered_grows(self@.frames, exported@, filters@, 0);
        }
        let ghost whole = exported@;
        let mut exported = exported;
        let ghost start = self@;
        let mut i: usize = 0;
        while i < filters.len()
            invariant
                i <= filters.len(),
                self@ == start,
                filtered(start.frames, exported@, filters@, i as int) == filtered(
                    start.frames,
                    whole,
                    filters@,
                    0,
                ),
            decreases filters.len() - i,
        {
            let filter = &filters[i];
            if filter.hide {
                let ghost source = exported@;
                let mut flat = ScopeChain::new(None);
                flat.extend(&exported);
                proof {
                    let all = flatten(source);
                    assert(Map::<Symbol, Res>::empty().union_prefer_right(all) =~= all);
                    assert(filter.names@.subrange(0, 0).to_set() =~= Set::<Symbol>::empty());
                    assert(all.remove_keys(Set::<Symbol>::empty()) =~= all);
                    assert(flat@ =~= hidden(source, filter.names@.subrange(0, 0)));
                }
                let mut j: usize = 0;
                while j < filter.names.len()
                    invariant
                        j <= filter.names.len(),
                        flat@ == hidden(source, filter.names@.subrange(0, j as int)),
                    decreases filter.names.len() - j,
                {
                    flat.remove(filter.names[j]);
                    proof {
                        let before = filter.names@.subrange(0, j as int);
                        let after = filter.names@.subrange(0, j + 1);
                        let dropped = filter.names@[j as int];
                        assert(after =~= before.push(dropped));
                        assert(after.to_set() =~= before.to_set().insert(dropped)) by {
                            assert forall|k: Symbol|
                                after.contains(k) <==> (before.contains(k) || k == dropped) by {
                                if before.contains(k) {
                                    let w = choose|w: int| 0 <= w < before.len() && before[w] == k;
                                    assert(after[w] == k);
                                }
                                if k == dropped {
                                    assert(after[j as int] == k);
                                }
                            }
                        }
                        assert(hidden(source, after)[0] =~= hidden(source, before)[0].remove(
                            dropped,
                        ));
                        assert(flat@ =~= hidden(source, after));
                    }
                    j = j + 1;
                }
                assert(filter.names@.subrange(0, j as int) =~= filter.names@);
                exported = flat;
            } else {
                assert(filtered(start.frames, exported@, filters@, i as int) == shown(
                    start.frames,
                    exported@,
                    filter.names@,
                ));
                self.show(&exported, &filter.names);
                return ;
            }
            i = i + 1;
        }
        self.extend(&exported);
    }

    /// Binds what a function declaration declares.
    pub fn collect_function(&mut self, ast: &Ast, n: Node)
        ensures
            final(self)@ == spec_collect_function(ast, old(self)@, n),
            old(self)@.grown_to(final(self)@),
            forall|name: Symbol|
                ast.kind(n) is Function && declares_directly(ast, n, name) ==> final(self)@
                    .frames.last().contains_key(name),
            only_declared_by(ast, old(self)@.frames.last(), final(self)@.frames.last(), n),
    {
        proof {
            self.scope.lemma_nonempty();
        }
        if let Some(data) = ast.node(n) {
            if let NodeKind::Function { name } = &data.kind {
                match name {
                    FnName::Regular(name) => self.record(*name, Res::Function(n)),
                    FnName::Getter(name) => self.record(*name, Res::Getter(n)),
                    FnName::Setter(name) => self.record(*name, Res::Setter(n)),
                    FnName::Operator => {},
                }
            }
        }
    }

    /// Binds what a variable declaration declares.
    pub fn collect_var_def(&mut self, ast: &Ast, n: Node)
        ensures
            final(self)@ == spec_collect_var_def(ast, old(self)@, n),
            old(self)@.grown_to(final(self)@),
            forall|name: Symbol|
                ast.kind(n) is VarDef && declares_directly(ast, n, name) ==> final(self)@
                    .frames.last().contains_key(name),
            only_declared_by(ast, old(self)@.frames.last(), final(self)@.frames.last(), n),
    {
        proof {
            self.scope.lemma_nonempty();
        }
        if let Some(data) = ast.node(n) {
            if let NodeKind::VarDef { name } = &data.kind {
                self.record(*name, Res::Var(n));
            }
        }
    }

    /// Binds the functions and variables among `nodes`.
    fn collect_declared(&mut self, ast: &Ast, nodes: &Vec<Node>)
        ensures
            final(self)@ == spec_collect_declared(ast, old(self)@, nodes@, 0),
            old(self)@.grown_to(final(self)@),
            forall|j: int, name: Symbol|
                0 <= j < nodes.len() && declares_directly(ast, #[trigger] nodes[j], name)
                    ==> #[trigger] final(self)@.frames.last().contains_key(name),
            only_declared(
                ast,
                old(self)@.frames.last(),
                final(self)@.frames.last(),
                nodes@,
                nodes.len() as int,
            ),
    {
        proof {
            self.scope.lemma_nonempty();
        }
        let mut i: usize = 0;
        while i < nodes.len()
            invariant
                i <= nodes.len(),
                spec_collect_declared(ast, self@, nodes@, i as int) == spec_collect_declared(
                    ast,
                    old(self)@,
                    nodes@,
                    0,
                ),
                old(self)@.grown_to(self@),
                forall|j: int, name: Symbol|
                    0 <= j < i && declares_directly(ast, #[trigger] nodes[j], name)
                        ==> #[trigger] self@.frames.last().contains_key(name),
                only_declared(
                    ast,
                    old(self)@.frames.last(),
                    self@.frames.last(),
                    nodes@,
                    i as int,
                ),
            decreases nodes.len() - i,
        {
            let ghost before = self@;
            self.collect_function(ast, nodes[i]);
            let ghost between = self@;
            self.collect_var_def(ast, nodes[i]);
            proof {
                let start = old(self)@.frames.last();
                let was = before.frames.last();
                let mid = between.frames.last();
                let now = self@.frames.last();
                let here = nodes[i as int];
                assert forall|name: Symbol| #[trigger] now.contains_key(name) implies {
                    ||| start.contains_key(name) && now[name] == start[name]
                    ||| exists|j: int|
                        0 <= j < i + 1 && j < nodes.len() && declares_directly(
                            ast,
                            #[trigger] nodes[j],
                            name,
                        ) && now[name] == declared_res(ast, nodes[j])
                } by {
                    if !(declares_directly(ast, here, name) && now[name] == declared_res(
                        ast,
                        here,
                    )) {
                        assert(mid.contains_key(name) && now[name] == mid[name]);
                        assert(was.contains_key(name) && mid[name] == was[name]);
                    }
                }
                assert forall|j: int, name: Symbol|
                    0 <= j < i + 1 && declares_directly(
                        ast,
                        #[trigger] nodes[j],
                        name,
                    ) implies #[trigger] self@.frames.last().contains_key(name) by {
                    if j < i {
                        assert(before.frames.last().contains_key(name));
                    }
                }
            }
            i = i + 1;
        }
    }

    /// Binds what a class member declares.
    pub fn collect_class_member(&mut self, ast: &Ast, n: Node)
        ensures
            final(self)@ == spec_collect_class_member(ast, old(self)@, n),
            old(self)@.grown_to(final(self)@),
            forall|name: Symbol|
                (ast.kind(n) is Constructor || ast.kind(n) is Member) && declares(ast, n, name)
                    ==> final(self)@.frames.last().contains_key(name),
            only_bound_by(ast, old(self)@.frames.last(), final(self)@.frames.last(), n),
    {
        proof {
            self.scope.lemma_nonempty();
        }
        if let Some(data) = ast.node(n) {
            match &data.kind {
                NodeKind::Constructor { name: Some(name) } => {
                    self.record(*name, Res::Constructor(n));
                },
                NodeKind::Member => {
                    self.collect_declared(ast, &data.children);
                },
                _ => {},
            }
        }
    }

    /// Imports the unit `target`, as `spec_import` says, with the whole
    /// nesting depth of the tree at hand.
    pub fn import(
        &mut self,
        ast: &Ast,
        an: &mut Analysis,
        target: Module,
        filters: &Vec<ImportFilter>,
        alias: Option<Symbol>,
    )
        ensures
            (final(self)@, final(an)@) == spec_import(
                ast,
                old(self)@,
                old(an)@,
                target,
                filters@,
                alias,
                ast.depth_limit(),
            ),
            old(self)@.grown_to(final(self)@),
            old(an)@.units_added(final(an)@),
            old(an)@.quiet_until(final(an)@),
    {
        let depth = ast.nesting_limit();
        self.import_within(ast, an, target, filters, alias, depth);
    }

    /// Imports the unit `target` with `depth` levels of nesting left.
    pub fn import_within(
        &mut self,
        ast: &Ast,
        an: &mut Analysis,
        target: Module,
        filters: &Vec<ImportFilter>,
        alias: Option<Symbol>,
        depth: u128,
    )
        ensures
            (final(self)@, final(an)@) == spec_import(
                ast,
                old(self)@,
                old(an)@,
                target,
                filters@,
                alias,
                depth as nat,
            ),
            old(self)@.grown_to(final(self)@),
            old(an)@.units_added(final(an)@),
            within_limit(ast, old(an)@, final(an)@, depth as nat),
        decreases depth, 0nat, 1nat,
    {
        proof {
            self.scope.lemma_nonempty();
        }
        let failed = match ast.module(target) {
            Some(data) => data.has_error,
            None => true,
        };
        if failed {
            self.has_error = true;
        }
        if let Some(name) = alias {
            self.record(name, Res::Module(target));
        }
        if let Some(exported) = module_exports_within(target, ast, an, depth) {
            self.merge(exported, filters);
        }
    }

    /// Collects one top-level item, as `spec_collect_item` says.
    pub fn collect_item(&mut self, ast: &Ast, an: &mut Analysis, n: Node, depth: u128)
        ensures
            (final(self)@, final(an)@) == spec_collect_item(
                ast,
                old(self)@,
                old(an)@,
                n,
                depth as nat,
            ),
            ast.kind(n) matches NodeKind::Import { deferred, .. } ==> deferred ==> final(self)@
                == old(self)@ && final(an)@ == old(an)@,
            old(self)@.grown_to(final(self)@),
            old(an)@.units_added(final(an)@),
            within_limit(ast, old(an)@, final(an)@, depth as nat),
            plain(ast, n) ==> only_bound_by(
                ast,
                old(self)@.frames.last(),
                final(self)@.frames.last(),
                n,
            ),
            forall|name: Symbol|
                !(ast.kind(n) is Constructor) && !(ast.kind(n) is Member) && !(ast.kind(n)
                    is Function) && !(ast.kind(n) is VarDef) && declares(ast, n, name)
                    ==> final(self)@.frames.last().contains_key(name),
        decreases depth, n.index + 1, 0nat,
    {
        proof {
            self.scope.lemma_nonempty();
        }
        if let Some(data) = ast.node(n) {
            match &data.kind {
                NodeKind::Class { name, .. } => {
                    self.record(*name, Res::Class(n));
                },
                NodeKind::MixinClass { name, .. } => {
                    self.record(*name, Res::Class(n));
                },
                NodeKind::Enum { name } => {
                    self.record(*name, Res::Enum(n));
                },
                NodeKind::TypeAlias { name } => {
                    self.record(*name, Res::TypeAlias(n));
                },
                NodeKind::Item => {
                    self.collect_declared(ast, &data.children);
                },
                NodeKind::Part => {
                    self.collect_all(ast, an, &data.children, n.index, depth);
                },
                NodeKind::Export { module, filters } => {
                    if self.exports_only {
                        self.import_within(ast, an, *module, filters, None, depth);
                    }
                },
                NodeKind::Import { module, filters, alias, deferred } => {
                    if !*deferred && !self.exports_only {
                        self.import_within(ast, an, *module, filters, *alias, depth);
                    }
                },
                _ => {},
            }
        }
    }

    /// Collects one declaration of any kind, as `spec_collect` says.
    pub fn collect(&mut self, ast: &Ast, an: &mut Analysis, n: Node, depth: u128)
        ensures
            (final(self)@, final(an)@) == spec_collect(
                ast,
                old(self)@,
                old(an)@,
                n,
                depth as nat,
            ),
            old(self)@.grown_to(final(self)@),
            old(an)@.units_added(final(an)@),
            within_limit(ast, old(an)@, final(an)@, depth as nat),
            plain(ast, n) ==> only_bound_by(
                ast,
                old(self)@.frames.last(),
                final(self)@.frames.last(),
                n,
            ),
            forall|name: Symbol|
                declares(ast, n, name) ==> final(self)@.frames.last().contains_key(name),
        decreases depth, n.index + 1, 1nat,
    {
        proof {
            self.scope.lemma_nonempty();
        }
        let is_item = match ast.node(n) {
            Some(data) => match &data.kind {
                NodeKind::Constructor { .. } | NodeKind::Member => {
                    self.collect_class_member(ast, n);
                    false
                },
                NodeKind::Function { .. } => {
                    self.collect_function(ast, n);
                    false
                },
                NodeKind::VarDef { .. } => {
                    self.collect_var_def(ast, n);
                    false
                },
                _ => true,
            },
            None => true,
        };
        if is_item {
            self.collect_item(ast, an, n, depth);
        }
    }

    /// Collects the declarations in `nodes`, in order, as `spec_collect_all` says.
    pub fn collect_all(
        &mut self,
        ast: &Ast,
        an: &mut Analysis,
        nodes: &Vec<Node>,
        bound: usize,
        depth: u128,
    )
        ensures
            (final(self)@, final(an)@) == spec_collect_all(
                ast,
                old(self)@,
                old(an)@,
                nodes@,
                0,
                bound as nat,
                depth as nat,
            ),
            old(self)@.grown_to(final(self)@),
            old(an)@.units_added(final(an)@),
            within_limit(ast, old(an)@, final(an)@, depth as nat),
            forall|j: int, name: Symbol|
                0 <= j < nodes.len() && nodes[j].index < bound && declares(
                    ast,
                    #[trigger] nodes[j],
                    name,
                ) ==> #[trigger] final(self)@.frames.last().contains_key(name),
            all_plain(ast, nodes@) ==> only_bound(
                ast,
                old(self)@.frames.last(),
                final(self)@.frames.last(),
                nodes@,
                nodes.len() as int,
                bound as nat,
            ),
        decreases depth, bound, nodes.len() + 2,
    {
        proof {
            self.scope.lemma_nonempty();
        }
        let mut i: usize = 0;
        while i < nodes.len()
            invariant
                i <= nodes.len(),
                old(self)@.grown_to(self@),
                old(an)@.units_added(an@),
                within_limit(ast, old(an)@, an@, depth as nat),
                all_plain(ast, nodes@) ==> only_bound(
                    ast,
                    old(self)@.frames.last(),
                    self@.frames.last(),
                    nodes@,
                    i as int,
                    bound as nat,
                ),
                forall|j: int, name: Symbol|
                    0 <= j < i && nodes[j].index < bound && declares(
                        ast,
                        #[trigger] nodes[j],
                        name,
                    ) ==> #[trigger] self@.frames.last().contains_key(name),
                spec_collect_all(ast, self@, an@, nodes@, i as int, bound as nat, depth as nat)
                    == spec_collect_all(
                    ast,
                    old(self)@,
                    old(an)@,
                    nodes@,
                    0,
                    bound as nat,
                    depth as nat,
                ),
            decreases nodes.len() - i,
        {
            let ghost before = self@;
            let ghost state_before = an@;
            if nodes[i].index < bound {
                self.collect(ast, an, nodes[i], depth);
            }
            proof {
                lemma_units_added_trans(old(an)@, state_before, an@);
                lemma_units_added_trans(state_before, an@, an@);
                lemma_within_trans(ast, old(an)@, state_before, an@, depth as nat);
                if all_plain(ast, nodes@) {
                    let start = old(self)@.frames.last();
                    let was = before.frames.last();
                    let now = self@.frames.last();
                    let here = nodes[i as int];
                    assert(plain(ast, here));
                    assert forall|name: Symbol| #[trigger] now.contains_key(name) implies {
                        ||| start.contains_key(name) && now[name] == start[name]
                        ||| exists|j: int|
                            0 <= j < i + 1 && j < nodes.len() && (#[trigger] nodes[j]).index
                                < bound && binds(ast, nodes[j], name, now[name])
                    } by {
                        if !(here.index < bound && binds(ast, here, name, now[name])) {
                            assert(was.contains_key(name) && now[name] == was[name]);
                        }
                    }
                }
                assert forall|j: int, name: Symbol|
                    0 <= j < i + 1 && nodes[j].index < bound && declares(
                        ast,
                        #[trigger] nodes[j],
                        name,
                    ) implies #[trigger] self@.frames.last().contains_key(name) by {
                    if j < i {
                        assert(before.frames.last().contains_key(name));
                    }
                }
            }
            i = i + 1;
        }
    }
}

/// Computes the export table of `module` with `depth` levels of nesting left.
pub fn module_exports_within(module: Module, ast: &Ast, an: &mut Analysis, depth: u128) -> (table:
    Option<ScopeChain>)
    ensures
        (frames_of(table), final(an)@) == spec_module_exports(ast, old(an)@, module, depth as nat),
        old(an)@.units_added(final(an)@),
        within_limit(ast, old(an)@, final(an)@, depth as nat),
        ast.has_module(module) ==> (table matches Some(chain) ==> final(an)@.module_slot(module)
            == Some(Slot::Ready(chain@))),
        old(an)@.module_slot(module) is None ==> (table matches Some(chain) ==> chain@.len() == 1),
        old(an)@.module_slot(module) is None && depth > 0 && all_plain(ast, ast.items(module))
            ==> table is Some && only_bound(
            ast,
            Map::empty(),
            table->0@.last(),
            ast.items(module),
            ast.items(module).len() as int,
            ast.nodes().len(),
        ),
        forall|j: int, name: Symbol|
            old(an)@.module_slot(module) is None && depth > 0 && 0 <= j < ast.items(module).len()
                && ast.items(module)[j].index < ast.nodes().len() && declares(
                ast,
                #[trigger] ast.items(module)[j],
                name,
            ) ==> table is Some && #[trigger] table->0@.last().contains_key(name),
    decreases depth, 0nat, 0nat,
{
    if module.index >= ast.module_count() {
        return Some(ScopeChain::new(None));
    }
    match an.module_table(module) {
        Cached::Ready(chain) => Some(chain),
        Cached::Busy => {
            an.report(Diagnostic::CyclicExport(module));
            None
        },
        Cached::Absent => {
            proof {
                ast.lemma_sizes();
                if an@.roomy(ast.nodes().len(), ast.modules().len(), depth as nat) {
                    lemma_unit_begun(
                        an@,
                        module,
                        ast.nodes().len(),
                        ast.modules().len(),
                        depth as nat,
                    );
                }
            }
            if depth == 0 {
                an.report(Diagnostic::NestingLimit);
                return None;
            }
            an.begin_module(module);
            let mut collector = Collector::exporting();
            match ast.module(module) {
                Some(data) => {
                    collector.collect_all(ast, an, &data.items, ast.node_count(), depth - 1);
                },
                None => {
                    assert(ast.items(module).len() == 0);
                },
            }
            let chain = collector.into_scope();
            proof {
                lemma_unit_finished(old(an)@, an@, module, chain@);
            }
            an.finish_module(module, chain.clone());
            Some(chain)
        },
    }
}

impl Module {
    /// The export table of this unit: what it declares at top level and what
    /// it exports again from other units. The table is computed once and
    /// kept: a second call returns the kept table and changes nothing. It is
    /// `None` when it is asked for while it is being computed; a handle that
    /// names no unit has an empty table.
    ///
    /// A table that is computed has one frame, which binds every name that
    /// an item of the unit declares; where the unit has no directive and no
    /// part, it binds nothing but what the items bind. Computing it attaches
    /// no result, touches no table of a class and never reaches the nesting
    /// limit.
    pub fn exports(&self, ast: &Ast, an: &mut Analysis) -> (table: Option<ScopeChain>)
        ensures
            (frames_of(table), final(an)@) == spec_module_exports(
                ast,
                old(an)@,
                *self,
                ast.depth_limit(),
            ),
            old(an)@.units_added(final(an)@),
            old(an)@.quiet_until(final(an)@),
            ast.has_module(*self) ==> (old(an)@.module_slot(*self) matches Some(
                Slot::Ready(kept),
            ) ==> frames_of(table) == Some(kept) && final(an)@ == old(an)@),
            table is Some <==> !ast.has_module(*self) || old(an)@.module_slot(*self) != Some(
                Slot::Busy,
            ),
            ast.has_module(*self) ==> (table matches Some(chain) ==> final(an)@.module_slot(*self)
                == Some(Slot::Ready(chain@))),
            old(an)@.module_slot(*self) is None ==> (table matches Some(chain) ==> chain@.len()
                == 1),
            old(an)@.module_slot(*self) is None && ast.has_module(*self) && all_plain(
                ast,
                ast.items(*self),
            ) ==> table is Some && only_bound(
                ast,
                Map::empty(),
                table->0@.last(),
                ast.items(*self),
                ast.items(*self).len() as int,
                ast.nodes().len(),
            ),
            forall|j: int, name: Symbol|
                old(an)@.module_slot(*self) is None && 0 <= j < ast.items(*self).len()
                    && ast.items(*self)[j].index < ast.nodes().len() && declares(
                    ast,
                    #[trigger] ast.items(*self)[j],
                    name,
                ) ==> table is Some && #[trigger] table->0@.last().contains_key(name),
    {
        module_exports_within(*self, ast, an, ast.nesting_limit())
    }
}

} // verus!
