//! The export table of a class: the names visible from outside it. The
//! superclass's table becomes the parent of the class's own frame, the tables
//! of mixins and interfaces are merged into that frame in order, and what the
//! class declares itself comes last and shadows the rest.
//!
//! A clause of the heritage that has no result yet makes the unit of the
//! class resolve its qualified paths first. The table of a class may need
//! the tables of other classes; a class whose table is in progress gets no
//! table from itself, so a cyclic hierarchy is cut where it closes.

use vstd::prelude::*;
use crate::analysis::{
    lemma_class_begun, lemma_class_finished, lemma_units_added_trans, Analysis, Cached,
    Diagnostic, Slot, State,
};
use crate::ast::Ast;
use crate::collect::{
    all_plain, declares, frames_of, lemma_grown_trans, only_bound, spec_collect_all, Collector,
    CollectorView,
};
use crate::res::{Module, Node, Res, Symbol};
use crate::scope::{lookup_in, overlay, Frame, ScopeChain};
use crate::shallow::{
    bare_name, clause_of, goes, lemma_paths_settled_trans, module_member, paths_settled, reached,
    resolve_types, settled_at, spec_collect_unit, spec_module_member, spec_resolve_types,
};

verus! {

/// Whether the shallow pass over the unit `m` comes to `c`: `c` is an item
/// of the unit, or the pass goes down to it from one.
pub open spec fn stands_in(ast: &Ast, m: Module, c: Node) -> bool {
    exists|j: int|
        0 <= j < ast.items(m).len() && ast.items(m)[j].index < ast.nodes().len() && goes(
            ast,
            #[trigger] ast.items(m)[j],
            c,
        )
}

/// The class that the heritage clause `q` of `c` is known to denote when it
/// gets its chance to resolve in `st`: the class that its result names; or,
/// for a clause without result that is a path without prefix, the class
/// that the scope of the unit of `c` binds its name to, provided that `c`
/// stands in that unit and no unit that it imports had failed to load.
pub open spec fn clause_denotes(
    ast: &Ast,
    st: State,
    c: Node,
    q: Node,
    depth: nat,
) -> Option<Node> {
    match st.res_of(q) {
        Some(Res::Class(class)) => Some(class),
        Some(_) => None,
        None => match ast.owner(c) {
            Some(m) => {
                let cv = spec_collect_unit(ast, st, m, depth).0;
                if stands_in(ast, m, c) && clause_of(ast, c, q) && !cv.has_error && bare_name(
                    ast,
                    q,
                ) is Some {
                    match lookup_in(cv.frames, bare_name(ast, q)->0) {
                        Res::Class(class) => Some(class),
                        _ => None,
                    }
                } else {
                    None
                }
            },
            None => None,
        },
    }
}

/// The class that the superclass clause of `c` is known to denote when the
/// table of `c` is computed from `st` with `depth` levels of nesting: the
/// clause gets its chance to resolve while the table is in progress, with
/// one level less.
pub open spec fn superclass_in(ast: &Ast, st: State, c: Node, depth: nat) -> Option<Node> {
    match ast.superclass(c) {
        Some(q) => clause_denotes(ast, st.with_class(c, Slot::Busy), c, q, (depth - 1) as nat),
        None => None,
    }
}

/// Whether the table of `c`, when it is computed from `st` with `depth`
/// levels of nesting, is owed the table of `parent` as its parent: the
/// table of `c` is not there yet, its superclass clause is known to denote
/// `parent`, another class of the tree, and the table of `parent` is not in
/// progress.
pub open spec fn inherits_from(ast: &Ast, st: State, c: Node, depth: nat, parent: Node) -> bool {
    &&& st.class_slot(c) is None
    &&& superclass_in(ast, st, c, depth) == Some(parent)
    &&& parent != c
    &&& ast.has_node(parent)
    &&& st.class_slot(parent) != Some(Slot::Busy)
}

/// Whether in `st` the table of `c` is kept with the kept table of `parent`
/// as its parent.
pub open spec fn linked(st: State, c: Node, parent: Node) -> bool {
    &&& st.class_slot(c) matches Some(Slot::Ready(table))
    &&& st.class_slot(parent) matches Some(Slot::Ready(enclosing))
    &&& table.len() > 0
    &&& table.drop_last() == enclosing
}

/// A table that is kept with its parent stays so, whatever is resolved
/// later: tables are written once.
pub proof fn lemma_linked_kept(a: State, b: State, c: Node, parent: Node)
    requires
        linked(a, c, parent),
        a.kept_by(b),
    ensures
        linked(b, c, parent),
{
    assert(a.classes.dom().contains(c.index));
    assert(a.classes.dom().contains(parent.index));
    assert(b.classes.dom().contains(c.index));
    assert(b.classes.dom().contains(parent.index));
}

/// Whether `c` has no mixin clause and no interface clause.
pub open spec fn unmixed(ast: &Ast, c: Node) -> bool {
    match ast.heritage(c) {
        Some((_, mixins, interfaces)) => mixins.len() == 0 && interfaces.len() == 0,
        None => true,
    }
}

/// In a table whose enclosing frames are the table `parent`, a name that
/// the local frame binds denotes what the local frame says, and any other
/// name denotes what it denotes in `parent`.
pub proof fn lemma_inherited_lookup(table: Seq<Frame>, parent: Seq<Frame>, name: Symbol)
    requires
        table.len() > 0,
        table.drop_last() == parent,
    ensures
        lookup_in(table, name) == if table.last().contains_key(name) {
            table.last()[name]
        } else {
            lookup_in(parent, name)
        },
{
}

/// The state in which the heritage clause `q` of the class `c` has had its
/// chance to resolve: when `q` has no result yet, the unit that owns `c` is
/// collected and its qualified paths are resolved by the shallow pass.
pub open spec fn spec_settle(ast: &Ast, st: State, c: Node, q: Node, depth: nat) -> State {
    if st.res_of(q) is None {
        match ast.owner(c) {
            Some(m) => spec_resolve_types(ast, st, m, depth),
            None => st,
        }
    } else {
        st
    }
}

/// The superclass clause `q` of `c`: when it denotes a class, that class's
/// export table becomes the parent of the local frame; when it does not, a
/// diagnostic is raised and there is no parent.
pub open spec fn spec_link_superclass(
    ast: &Ast,
    cv: CollectorView,
    st: State,
    c: Node,
    q: Node,
    depth: nat,
) -> (CollectorView, State)
    decreases depth, 1nat,
{
    let st1 = spec_settle(ast, st, c, q, depth);
    match st1.res_of(q) {
        Some(Res::Class(parent)) => {
            let (table, st2) = spec_class_exports(ast, st1, parent, depth);
            match table {
                Some(frames) => (cv.with_frames(frames.push(cv.frames.last())), st2),
                None => (cv, st2),
            }
        },
        _ => (cv, st1.report(Diagnostic::UnknownSuperclass(q))),
    }
}

/// A mixin or interface clause `q` of `c`: when it denotes a class, that
/// class's export table is merged, flattened, into the local frame; when it
/// does not, a diagnostic is raised.
pub open spec fn spec_mix(
    ast: &Ast,
    cv: CollectorView,
    st: State,
    c: Node,
    q: Node,
    depth: nat,
) -> (CollectorView, State)
    decreases depth, 1nat,
{
    let st1 = spec_settle(ast, st, c, q, depth);
    match st1.res_of(q) {
        Some(Res::Class(mixed)) => {
            let (table, st2) = spec_class_exports(ast, st1, mixed, depth);
            match table {
                Some(frames) => (cv.with_frames(overlay(cv.frames, frames)), st2),
                None => (cv, st2),
            }
        },
        _ => (cv, st1.report(Diagnostic::UnknownClass(q))),
    }
}

/// The clauses `paths[i..]` of `c`, in order; a later clause shadows an earlier one.
pub open spec fn spec_mix_all(
    ast: &Ast,
    cv: CollectorView,
    st: State,
    c: Node,
    paths: Seq<Node>,
    i: int,
    depth: nat,
) -> (CollectorView, State)
    decreases depth, paths.len() - i + 2,
{
    if 0 <= i < paths.len() {
        let (cv1, st1) = spec_mix(ast, cv, st, c, paths[i], depth);
        spec_mix_all(ast, cv1, st1, c, paths, i + 1, depth)
    } else {
        (cv, st)
    }
}

/// The export table of the node `c` and the state after computing it.
/// A handle that names no node has an empty table. A table that is kept is
/// returned as it is. A table that is being computed, or one asked for with
/// no depth left, gives `None` and a diagnostic. Otherwise the table is
/// built from one empty frame: the superclass is linked, mixins and then
/// interfaces are merged, the members of `c` are collected, and the result
/// is kept.
pub open spec fn spec_class_exports(ast: &Ast, st: State, c: Node, depth: nat) -> (
    Option<Seq<Frame>>,
    State,
)
    decreases depth, 0nat,
{
    if !ast.has_node(c) {
        (Some(seq![Map::empty()]), st)
    } else {
        match st.class_slot(c) {
            Some(Slot::Ready(frames)) => (Some(frames), st),
            Some(Slot::Busy) => (None, st.report(Diagnostic::CyclicHierarchy(c))),
            None => if depth == 0 {
                (None, st.report(Diagnostic::NestingLimit))
            } else {
                let d = (depth - 1) as nat;
                let cv0 = CollectorView::exporting();
                let st0 = st.with_class(c, Slot::Busy);
                let (cv2, st2) = match ast.heritage(c) {
                    Some((superclass, mixins, interfaces)) => {
                        let (cv1, st1) = match superclass {
                            Some(q) => spec_link_superclass(ast, cv0, st0, c, q, d),
                            None => (cv0, st0),
                        };
                        let (cv_m, st_m) = spec_mix_all(ast, cv1, st1, c, mixins, 0, d);
                        spec_mix_all(ast, cv_m, st_m, c, interfaces, 0, d)
                    },
                    None => (cv0, st0),
                };
                let (cv3, st3) = spec_collect_all(
                    ast,
                    cv2,
                    st2,
                    ast.children(c),
                    0,
                    c.index as nat,
                    d,
                );
                (Some(cv3.frames), st3.with_class(c, Slot::Ready(cv3.frames)))
            },
        }
    }
}

/// Asking twice for the export table of a node gives the same table twice,
/// and the second request changes nothing, whatever depth it is given:
/// the table is computed once. (A table that is in progress is no table
/// yet, and without depth none is computed.)
pub proof fn lemma_class_exports_once(ast: &Ast, st: State, c: Node, depth: nat, again: nat)
    requires
        st.class_slot(c) != Some(Slot::Busy),
        depth > 0,
    ensures
        ({
            let (first, kept) = spec_class_exports(ast, st, c, depth);
            let (second, after) = spec_class_exports(ast, kept, c, again);
            &&& first is Some
            &&& second == first
            &&& after == kept
        }),
{
}

/// What `name` denotes as a member of `res`: a class and a unit are looked up
/// in their export tables, nothing else has members.
pub open spec fn spec_lookup_member(ast: &Ast, st: State, res: Res, name: Symbol, depth: nat) -> (
    Res,
    State,
) {
    match res {
        Res::Class(c) => {
            let (table, done) = spec_class_exports(ast, st, c, depth);
            match table {
                Some(frames) => (lookup_in(frames, name), done),
                None => (Res::Error, done),
            }
        },
        Res::Module(m) => spec_module_member(ast, st, m, name, depth),
        _ => (Res::Error, st),
    }
}

/// Gives the heritage clause `q` of `c` its chance to resolve, as
/// `spec_settle` says.
fn settle(ast: &Ast, an: &mut Analysis, c: Node, q: Node, depth: u128)
    ensures
        final(an)@ == spec_settle(ast, old(an)@, c, q, depth as nat),
        paths_settled(ast, old(an)@, final(an)@, ast.nodes().len(), depth as nat),
        final(an)@.classes == old(an)@.classes,
        old(an)@.res_of(q) is Some ==> final(an)@ == old(an)@,
        forall|class: Node|
            clause_denotes(ast, old(an)@, c, q, depth as nat) == Some(class) ==> final(an)@.res_of(
                q,
            ) == Some(Res::Class(class)),
{
    proof {
        lemma_units_added_trans(an@, an@, an@);
    }
    if an.res(q).is_none() {
        if let Some(data) = ast.node(c) {
            let collector = resolve_types(ast, an, data.module, depth);
            proof {
                let items = ast.items(data.module);
                if stands_in(ast, data.module, c) && clause_of(ast, c, q)
                    && !collector@.has_error && bare_name(ast, q) is Some && lookup_in(
                    collector@.frames,
                    bare_name(ast, q)->0,
                ) is Class {
                    let j = choose|j: int|
                        0 <= j < items.len() && items[j].index < ast.nodes().len() && goes(
                            ast,
                            #[trigger] items[j],
                            c,
                        );
                    assert(reached(ast, collector@.frames, an@, items[j]));
                    assert(settled_at(ast, collector@.frames, an@, c));
                    assert(an@.res.contains_key(q.index) && !old(an)@.res.contains_key(q.index));
                }
            }
        }
    }
}

/// Links the superclass clause `q` of `c`, as `spec_link_superclass` says.
/// The local frame stays as it is. When `q` denotes a class of the tree
/// whose table is not in progress, that table, kept, encloses the local
/// frame afterwards.
fn link_superclass(
    collector: &mut Collector,
    ast: &Ast,
    an: &mut Analysis,
    c: Node,
    q: Node,
    depth: u128,
)
    ensures
        (final(collector)@, final(an)@) == spec_link_superclass(
            ast,
            old(collector)@,
            old(an)@,
            c,
            q,
            depth as nat,
        ),
        paths_settled(ast, old(an)@, final(an)@, ast.nodes().len(), depth as nat),
        final(collector)@.frames.len() > 0,
        final(collector)@.frames.last() == old(collector)@.frames.last(),
        final(collector)@.exports_only == old(collector)@.exports_only,
        forall|parent: Node|
            clause_denotes(ast, old(an)@, c, q, depth as nat) == Some(parent) && depth > 0
                && ast.has_node(parent) && old(an)@.class_slot(parent) != Some(Slot::Busy)
                ==> final(an)@.class_slot(parent) == Some(
                Slot::Ready(final(collector)@.frames.drop_last()),
            ),
    decreases depth, 1nat,
{
    proof {
        collector.lemma_nonempty();
    }
    settle(ast, an, c, q, depth);
    let ghost settled = an@;
    match an.res(q) {
        Some(Res::Class(parent)) => {
            let found = class_exports_within(parent, ast, an, depth);
            proof {
                lemma_paths_settled_trans(
                    ast,
                    old(an)@,
                    settled,
                    an@,
                    ast.nodes().len(),
                    ast.nodes().len(),
                    depth as nat,
                );
            }
            if let Some(table) = found {
                collector.set_parent(table);
                assert(collector@.frames.drop_last() =~= table@);
            }
        },
        _ => {
            an.report(Diagnostic::UnknownSuperclass(q));
        },
    }
}

/// Merges the mixin or interface clause `q` of `c`, as `spec_mix` says.
fn mix(collector: &mut Collector, ast: &Ast, an: &mut Analysis, c: Node, q: Node, depth: u128)
    ensures
        (final(collector)@, final(an)@) == spec_mix(
            ast,
            old(collector)@,
            old(an)@,
            c,
            q,
            depth as nat,
        ),
        paths_settled(ast, old(an)@, final(an)@, ast.nodes().len(), depth as nat),
        old(collector)@.grown_to(final(collector)@),
    decreases depth, 1nat,
{
    proof {
        collector.lemma_nonempty();
    }
    settle(ast, an, c, q, depth);
    let ghost settled = an@;
    match an.res(q) {
        Some(Res::Class(mixed)) => {
            let found = class_exports_within(mixed, ast, an, depth);
            proof {
                lemma_paths_settled_trans(
                    ast,
                    old(an)@,
                    settled,
                    an@,
                    ast.nodes().len(),
                    ast.nodes().len(),
                    depth as nat,
                );
            }
            if let Some(table) = found {
                collector.extend(&table);
            }
        },
        _ => {
            an.report(Diagnostic::UnknownClass(q));
        },
    }
}

/// Merges the clauses `paths` of `c`, in order, as `spec_mix_all` says.
fn mix_all(
    collector: &mut Collector,
    ast: &Ast,
    an: &mut Analysis,
    c: Node,
    paths: &Vec<Node>,
    depth: u128,
)
    ensures
        (final(collector)@, final(an)@) == spec_mix_all(
            ast,
            old(collector)@,
            old(an)@,
            c,
            paths@,
            0,
            depth as nat,
        ),
        paths_settled(ast, old(an)@, final(an)@, ast.nodes().len(), depth as nat),
        old(collector)@.grown_to(final(collector)@),
    decreases depth, paths.len() + 2,
{
    proof {
        collector.lemma_nonempty();
        lemma_units_added_trans(an@, an@, an@);
    }
    let mut i: usize = 0;
    while i < paths.len()
        invariant
            i <= paths.len(),
            paths_settled(ast, old(an)@, an@, ast.nodes().len(), depth as nat),
            old(collector)@.grown_to(collector@),
            spec_mix_all(ast, collector@, an@, c, paths@, i as int, depth as nat) == spec_mix_all(
                ast,
                old(collector)@,
                old(an)@,
                c,
                paths@,
                0,
                depth as nat,
            ),
        decreases paths.len() - i,
    {
        let ghost before = an@;
        let ghost grown = collector@;
        mix(collector, ast, an, c, paths[i], depth);
        proof {
            lemma_paths_settled_trans(
                ast,
                old(an)@,
                before,
                an@,
                ast.nodes().len(),
                ast.nodes().len(),
                depth as nat,
            );
            lemma_grown_trans(old(collector)@, grown, collector@);
        }
        i = i + 1;
    }
}

/// Beginning the table of a node, settling paths with one level of depth
/// less, and finishing the table is settling paths.
proof fn lemma_table_settled(
    ast: &Ast,
    a: State,
    b: State,
    c: Node,
    frames: Seq<Frame>,
    depth: nat,
)
    requires
        a.class_slot(c) is None,
        ast.has_node(c),
        depth > 0,
        paths_settled(ast, a.with_class(c, Slot::Busy), b, ast.nodes().len(), (depth - 1) as nat),
    ensures
        paths_settled(ast, a, b.with_class(c, Slot::Ready(frames)), ast.nodes().len(), depth),
{
    lemma_class_finished(a, b, c, frames);
    let last = b.with_class(c, Slot::Ready(frames));
    assert forall|k: usize| #[trigger]
        last.res.contains_key(k) && !a.res.contains_key(k) implies k < ast.nodes().len()
        && ast.kind(Node { index: k }) is Qualified by {
        assert(b.res.contains_key(k) && !a.with_class(c, Slot::Busy).res.contains_key(k));
    }
    ast.lemma_sizes();
    if a.roomy(ast.nodes().len(), ast.modules().len(), depth) {
        lemma_class_begun(a, c, ast.nodes().len(), ast.modules().len(), depth);
    }
}

/// Computes the export table of `c` with `depth` levels of nesting left.
///
/// Besides what `spec_class_exports` says: a table that is handed out is the
/// table that is kept. When the table of `c` is owed the table of another
/// class as its parent (`inherits_from`), that table, kept, is the parent of
/// the local frame. The local frame binds every name that a member of `c`
/// declares, and for a class without mixins, interfaces and directives
/// nothing but what the members bind.
pub fn class_exports_within(c: Node, ast: &Ast, an: &mut Analysis, depth: u128) -> (table: Option<
    ScopeChain,
>)
    ensures
        (frames_of(table), final(an)@) == spec_class_exports(ast, old(an)@, c, depth as nat),
        paths_settled(ast, old(an)@, final(an)@, ast.nodes().len(), depth as nat),
        ast.has_node(c) ==> (table matches Some(chain) ==> final(an)@.class_slot(c) == Some(
            Slot::Ready(chain@),
        )),
        old(an)@.class_slot(c) != Some(Slot::Busy) && (depth > 0 || old(an)@.class_slot(c) is Some)
            ==> table is Some,
        forall|parent: Node|
            depth > 1 && #[trigger] inherits_from(ast, old(an)@, c, depth as nat, parent)
                ==> table is Some && final(an)@.class_slot(parent) == Some(
                Slot::Ready(table->0@.drop_last()),
            ),
        forall|j: int, name: Symbol|
            old(an)@.class_slot(c) is None && depth > 0 && 0 <= j < ast.children(c).len()
                && ast.children(c)[j].index < c.index && declares(
                ast,
                #[trigger] ast.children(c)[j],
                name,
            ) ==> table is Some && #[trigger] table->0@.last().contains_key(name),
        old(an)@.class_slot(c) is None && depth > 0 && ast.has_node(c) && unmixed(ast, c)
            && all_plain(ast, ast.children(c)) ==> table is Some && only_bound(
            ast,
            Map::empty(),
            table->0@.last(),
            ast.children(c),
            ast.children(c).len() as int,
            c.index as nat,
        ),
    decreases depth, 0nat,
{
    proof {
        lemma_units_added_trans(an@, an@, an@);
    }
    if c.index >= ast.node_count() {
        return Some(ScopeChain::new(None));
    }
    match an.class_table(c) {
        Cached::Ready(chain) => Some(chain),
        Cached::Busy => {
            an.report(Diagnostic::CyclicHierarchy(c));
            None
        },
        Cached::Absent => {
            proof {
                ast.lemma_sizes();
                if an@.roomy(ast.nodes().len(), ast.modules().len(), depth as nat) {
                    lemma_class_begun(
                        an@,
                        c,
                        ast.nodes().len(),
                        ast.modules().len(),
                        depth as nat,
                    );
                }
            }
            if depth == 0 {
                an.report(Diagnostic::NestingLimit);
                return None;
            }
            an.begin_class(c);
            let ghost begun = an@;
            let mut collector = Collector::exporting();
            let ghost mut linked = collector@;
            let ghost mut state_linked = an@;
            let none: Vec<Node> = Vec::new();
            match ast.node(c) {
                Some(data) => {
                    let (superclass, mixins, interfaces) = match ast.clauses(c) {
                        Some(clauses) => clauses,
                        None => (None, &none, &none),
                    };
                    if let Some(q) = superclass {
                        link_superclass(&mut collector, ast, an, c, q, depth - 1);
                    }
                    proof {
                        linked = collector@;
                        state_linked = an@;
                    }
                    mix_all(&mut collector, ast, an, c, mixins, depth - 1);
                    let ghost mixed = collector@;
                    let ghost state_mixed = an@;
                    mix_all(&mut collector, ast, an, c, interfaces, depth - 1);
                    let ghost inherited = collector@;
                    let ghost state_inherited = an@;
                    proof {
                        if unmixed(ast, c) {
                            assert(mixed == linked);
                            assert(inherited == linked);
                            assert(inherited.frames.last() =~= Map::<Symbol, Res>::empty());
                        }
                    }
                    collector.collect_all(ast, an, &data.children, c.index, depth - 1);
                    proof {
                        let all = ast.nodes().len();
                        let d = (depth - 1) as nat;
                        lemma_grown_trans(linked, mixed, inherited);
                        lemma_grown_trans(linked, inherited, collector@);
                        lemma_paths_settled_trans(
                            ast,
                            begun,
                            state_linked,
                            state_mixed,
                            all,
                            all,
                            d,
                        );
                        lemma_paths_settled_trans(
                            ast,
                            begun,
                            state_mixed,
                            state_inherited,
                            all,
                            all,
                            d,
                        );
                        lemma_paths_settled_trans(ast, begun, state_inherited, an@, all, all, d);
                        lemma_paths_settled_trans(
                            ast,
                            state_linked,
                            state_mixed,
                            state_inherited,
                            all,
                            all,
                            d,
                        );
                        lemma_paths_settled_trans(
                            ast,
                            state_linked,
                            state_inherited,
                            an@,
                            all,
                            all,
                            d,
                        );
                    }
                },
                None => {
                    assert(ast.children(c).len() == 0);
                },
            }
            let chain = collector.into_scope();
            proof {
                lemma_table_settled(ast, old(an)@, an@, c, chain@, depth as nat);
                assert forall|parent: Node|
                    depth > 1 && superclass_in(ast, old(an)@, c, depth as nat) == Some(parent)
                        && parent != c && ast.has_node(parent) && old(an)@.class_slot(parent)
                        != Some(Slot::Busy) implies an@.class_slot(parent) == Some(
                        Slot::Ready(chain@.drop_last()),
                    ) by {
                    assert(begun.class_slot(parent) == old(an)@.class_slot(parent));
                    assert(state_linked.class_slot(parent) == Some(
                        Slot::Ready(linked.frames.drop_last()),
                    ));
                    assert(state_linked.classes.dom().contains(parent.index));
                    assert(an@.classes.dom().contains(parent.index));
                }
            }
            an.finish_class(c, chain.clone());
            Some(chain)
        },
    }
}

impl Node {
    /// The export table of this node, a class as a rule. The table is
    /// computed once and kept: a second call returns the kept table and
    /// changes nothing. It is `None` when the table is asked for while it is
    /// being computed; a handle that names no node has an empty table.
    ///
    /// When the superclass clause is known to denote another class of the
    /// tree, by its result or by the scope of the unit, and the table of
    /// that class is not being computed (`inherits_from`), that table is the
    /// parent of the local frame, so that a name resolves to what this
    /// class, its mixins or its interfaces say, and otherwise to what the
    /// superclass says (`lemma_inherited_lookup`). A table that is kept
    /// with its parent (`linked`) is handed out with that parent. The local
    /// frame binds every name that a member of the class declares; where the
    /// class has no mixins and no interfaces, and no directive in its
    /// body, it binds nothing but what the members bind.
    pub fn exports(&self, ast: &Ast, an: &mut Analysis) -> (table: Option<ScopeChain>)
        ensures
            (frames_of(table), final(an)@) == spec_class_exports(
                ast,
                old(an)@,
                *self,
                ast.depth_limit(),
            ),
            ast.has_node(*self) ==> (old(an)@.class_slot(*self) matches Some(Slot::Ready(kept))
                ==> frames_of(table) == Some(kept) && final(an)@ == old(an)@),
            table is Some <==> !ast.has_node(*self) || old(an)@.class_slot(*self) != Some(
                Slot::Busy,
            ),
            ast.has_node(*self) ==> (table matches Some(chain) ==> final(an)@.class_slot(*self)
                == Some(Slot::Ready(chain@))),
            paths_settled(ast, old(an)@, final(an)@, ast.nodes().len(), ast.depth_limit()),
            old(an)@.quiet_until(final(an)@),
            forall|parent: Node| #[trigger]
                inherits_from(ast, old(an)@, *self, ast.depth_limit(), parent) ==> table is Some
                    && final(an)@.class_slot(parent) == Some(
                    Slot::Ready(table->0@.drop_last()),
                ) && linked(final(an)@, *self, parent),
            forall|parent: Node| #[trigger]
                linked(old(an)@, *self, parent) && ast.has_node(*self) ==> table is Some
                    && final(an)@ == old(an)@ && final(an)@.class_slot(parent) == Some(
                    Slot::Ready(table->0@.drop_last()),
                ),
            forall|j: int, name: Symbol|
                old(an)@.class_slot(*self) is None && 0 <= j < ast.children(*self).len()
                    && ast.children(*self)[j].index < self.index && declares(
                    ast,
                    #[trigger] ast.children(*self)[j],
                    name,
                ) ==> table is Some && #[trigger] table->0@.last().contains_key(name),
            old(an)@.class_slot(*self) is None && ast.has_node(*self) && unmixed(ast, *self)
                && all_plain(ast, ast.children(*self)) ==> table is Some && only_bound(
                ast,
                Map::empty(),
                table->0@.last(),
                ast.children(*self),
                ast.children(*self).len() as int,
                self.index as nat,
            ),
    {
        let table = class_exports_within(*self, ast, an, ast.nesting_limit());
        proof {
            match &table {
                Some(chain) => {
                    chain.lemma_nonempty();
                },
                None => {},
            }
        }
        table
    }
}

impl Res {
    /// Looks `name` up as a member of this result, as `spec_lookup_member`
    /// says, with `depth` levels of nesting left.
    pub fn lookup_member_within(
        &self,
        ast: &Ast,
        an: &mut Analysis,
        name: Symbol,
        depth: u128,
    ) -> (res: Res)
        ensures
            (res, final(an)@) == spec_lookup_member(ast, old(an)@, *self, name, depth as nat),
            paths_settled(ast, old(an)@, final(an)@, ast.nodes().len(), depth as nat),
    {
        proof {
            lemma_units_added_trans(an@, an@, an@);
        }
        match self {
            Res::Class(c) => match class_exports_within(*c, ast, an, depth) {
                Some(table) => table.lookup(name),
                None => Res::Error,
            },
            Res::Module(m) => module_member(*m, ast, an, name, depth),
            _ => Res::Error,
        }
    }

    /// Looks `name` up as a member of this result: in the export table of a
    /// class or of a unit. Any other result has no members and gives
    /// `Res::Error`.
    pub fn lookup_member(&self, ast: &Ast, an: &mut Analysis, name: Symbol) -> (res: Res)
        ensures
            (res, final(an)@) == spec_lookup_member(
                ast,
                old(an)@,
                *self,
                name,
                ast.depth_limit(),
            ),
            !(*self is Class) && !(*self is Module) ==> res == Res::Error && final(an)@ == old(an)@,
            paths_settled(ast, old(an)@, final(an)@, ast.nodes().len(), ast.depth_limit()),
            old(an)@.quiet_until(final(an)@),
    {
        self.lookup_member_within(ast, an, name, ast.nesting_limit())
    }
}

} // verus!
