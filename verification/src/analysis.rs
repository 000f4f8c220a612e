//! What resolution attaches to the tree: a result per node, an export table
//! per class and per compilation unit, and the diagnostics raised on the way.
//!
//! The tree itself is never changed. Each attribute is kept in a side table
//! keyed by handle and is written once.

use std::collections::HashMap;
use vstd::prelude::*;
use crate::res::{Module, Node, Res};
use crate::scope::{Frame, ScopeChain};

verus! {

broadcast use vstd::std_specs::hash::group_hash_axioms;

/// A failure that resolution recovered from.
#[derive(Clone, Copy, PartialEq, Eq, Structural, Debug)]
pub enum Diagnostic {
    /// The superclass clause, a qualified path, names no class.
    UnknownSuperclass(Node),
    /// A mixin or interface clause, a qualified path, names no class.
    UnknownClass(Node),
    /// An identifier is bound nowhere in scope.
    UnknownValue(Node),
    /// A qualified path names nothing.
    UnknownPath(Node),
    /// The export table of this class was asked for while it was being computed.
    CyclicHierarchy(Node),
    /// The export table of this unit was asked for while it was being computed.
    CyclicExport(Module),
    /// An export table was asked for with no nesting depth left. The passes
    /// started from outside never raise this.
    NestingLimit,
}

/// Whether a diagnostic is about the export table of a unit.
pub open spec fn about_units(diagnostic: Diagnostic) -> bool {
    diagnostic is CyclicExport || diagnostic is NestingLimit
}

/// The state of one export table.
pub enum Slot {
    /// The table is being computed.
    Busy,
    /// The table, as a sequence of frames.
    Ready(Seq<Frame>),
}

/// Every table that is in progress in `later` was there, in progress, in
/// `earlier`, provided that `later` kept what `earlier` held.
pub open spec fn none_begun(earlier: Map<usize, Slot>, later: Map<usize, Slot>) -> bool {
    forall|k: usize| #[trigger]
        later.dom().contains(k) && later[k] is Busy ==> earlier.dom().contains(k)
}

/// Whether the table of the handle `k` is in progress.
pub open spec fn in_progress(slots: Map<usize, Slot>, k: usize) -> bool {
    slots.dom().contains(k) && slots[k] is Busy
}

/// The number of handles below `n` whose table is in progress.
pub open spec fn busy_below(slots: Map<usize, Slot>, n: nat) -> nat
    decreases n,
{
    if n == 0 {
        0
    } else if in_progress(slots, (n - 1) as usize) {
        busy_below(slots, (n - 1) as nat) + 1
    } else {
        busy_below(slots, (n - 1) as nat)
    }
}

/// The attributes as mathematical maps; a handle without an entry has no
/// attribute yet.
#[verifier::ext_equal]
pub struct State {
    pub res: Map<usize, Res>,
    pub classes: Map<usize, Slot>,
    pub modules: Map<usize, Slot>,
    pub diagnostics: Seq<Diagnostic>,
}

impl State {
    pub open spec fn empty() -> State {
        State {
            res: Map::empty(),
            classes: Map::empty(),
            modules: Map::empty(),
            diagnostics: Seq::empty(),
        }
    }

    pub open spec fn res_of(self, n: Node) -> Option<Res> {
        if self.res.contains_key(n.index) {
            Some(self.res[n.index])
        } else {
            None
        }
    }

    pub open spec fn with_res(self, n: Node, res: Res) -> State {
        State { res: self.res.insert(n.index, res), ..self }
    }

    /// `self` with `res` attached to `n`, unless `n` has a result already:
    /// a result is written once.
    pub open spec fn attach(self, n: Node, res: Res) -> State {
        if self.res.contains_key(n.index) {
            self
        } else {
            self.with_res(n, res)
        }
    }

    pub open spec fn class_slot(self, c: Node) -> Option<Slot> {
        if self.classes.contains_key(c.index) {
            Some(self.classes[c.index])
        } else {
            None
        }
    }

    pub open spec fn with_class(self, c: Node, slot: Slot) -> State {
        State { classes: self.classes.insert(c.index, slot), ..self }
    }

    pub open spec fn module_slot(self, m: Module) -> Option<Slot> {
        if self.modules.contains_key(m.index) {
            Some(self.modules[m.index])
        } else {
            None
        }
    }

    pub open spec fn with_module(self, m: Module, slot: Slot) -> State {
        State { modules: self.modules.insert(m.index, slot), ..self }
    }

    pub open spec fn report(self, diagnostic: Diagnostic) -> State {
        State { diagnostics: self.diagnostics.push(diagnostic), ..self }
    }

    /// Nothing that `self` holds is lost or changed in `later`: every result,
    /// every table and every table in progress is still there as it was,
    /// diagnostics were only added, and no other table is in progress.
    pub open spec fn kept_by(self, later: State) -> bool {
        &&& self.res.submap_of(later.res)
        &&& self.classes.submap_of(later.classes)
        &&& self.modules.submap_of(later.modules)
        &&& self.diagnostics.is_prefix_of(later.diagnostics)
        &&& none_begun(self.classes, later.classes)
        &&& none_begun(self.modules, later.modules)
    }

    /// How many tables are in progress, of the nodes below `nodes` and of
    /// the units below `modules`.
    pub open spec fn busy(self, nodes: nat, modules: nat) -> nat {
        busy_below(self.classes, nodes) + busy_below(self.modules, modules)
    }

    /// Whether `depth` is enough to begin, one inside the other, every table
    /// that is not in progress.
    pub open spec fn roomy(self, nodes: nat, modules: nat, depth: nat) -> bool {
        depth + self.busy(nodes, modules) >= nodes + modules
    }

    /// No diagnostic that `later` has beyond those of `self` says that the
    /// nesting limit was reached.
    pub open spec fn quiet_until(self, later: State) -> bool {
        forall|i: int|
            #![trigger later.diagnostics[i]]
            self.diagnostics.len() <= i < later.diagnostics.len() ==> later.diagnostics[i]
                != Diagnostic::NestingLimit
    }

    /// Every diagnostic that `later` has beyond those of `self` is about the
    /// export table of a unit.
    pub open spec fn units_blamed(self, later: State) -> bool {
        forall|i: int|
            #![trigger later.diagnostics[i]]
            self.diagnostics.len() <= i < later.diagnostics.len() ==> about_units(
                later.diagnostics[i],
            )
    }

    /// Where `depth` was enough in `self`, the nesting limit was not reached
    /// on the way to `later`.
    pub open spec fn calm(self, later: State, nodes: nat, modules: nat, depth: nat) -> bool {
        self.roomy(nodes, modules, depth) ==> self.quiet_until(later)
    }

    /// `later` differs from `self` only by finished export tables of units
    /// and by diagnostics about such tables that were added.
    pub open spec fn units_added(self, later: State) -> bool {
        &&& later.res == self.res
        &&& later.classes == self.classes
        &&& self.modules.submap_of(later.modules)
        &&& self.diagnostics.is_prefix_of(later.diagnostics)
        &&& none_begun(self.modules, later.modules)
        &&& self.units_blamed(later)
    }
}

/// No more tables are in progress than there are handles; fewer, where the
/// table of one handle is not in progress.
pub(crate) proof fn lemma_busy_bound(slots: Map<usize, Slot>, n: nat, k: usize)
    requires
        n <= usize::MAX,
    ensures
        busy_below(slots, n) <= n,
        k < n && !in_progress(slots, k) ==> busy_below(slots, n) < n,
    decreases n,
{
    if n > 0 {
        lemma_busy_bound(slots, (n - 1) as nat, k);
    }
}

/// Beginning a table that was not in progress adds one to the tables in
/// progress, if the handle counts.
pub(crate) proof fn lemma_busy_begun(slots: Map<usize, Slot>, n: nat, k: usize)
    requires
        n <= usize::MAX,
        !in_progress(slots, k),
    ensures
        busy_below(slots.insert(k, Slot::Busy), n) == busy_below(slots, n) + if k < n {
            1nat
        } else {
            0nat
        },
    decreases n,
{
    if n > 0 {
        lemma_busy_begun(slots, (n - 1) as nat, k);
    }
}

/// Tables that are in progress for the same handles are equally many.
pub(crate) proof fn lemma_busy_same(a: Map<usize, Slot>, b: Map<usize, Slot>, n: nat)
    requires
        n <= usize::MAX,
        forall|k: usize| k < n ==> in_progress(a, k) == in_progress(b, k),
    ensures
        busy_below(a, n) == busy_below(b, n),
    decreases n,
{
    if n > 0 {
        lemma_busy_same(a, b, (n - 1) as nat);
    }
}

/// What is kept has the same tables in progress.
pub(crate) proof fn lemma_kept_busy(a: State, b: State, nodes: nat, modules: nat)
    requires
        a.kept_by(b) || a.units_added(b),
        nodes <= usize::MAX,
        modules <= usize::MAX,
    ensures
        b.busy(nodes, modules) == a.busy(nodes, modules),
{
    assert forall|k: usize| in_progress(a.classes, k) == in_progress(b.classes, k) by {
        if in_progress(b.classes, k) {
            assert(b.classes.dom().contains(k));
            assert(a.classes.dom().contains(k));
        }
        if in_progress(a.classes, k) {
            assert(a.classes.dom().contains(k));
            assert(b.classes.dom().contains(k));
        }
    }
    assert forall|k: usize| in_progress(a.modules, k) == in_progress(b.modules, k) by {
        if in_progress(b.modules, k) {
            assert(b.modules.dom().contains(k));
            assert(a.modules.dom().contains(k));
        }
        if in_progress(a.modules, k) {
            assert(a.modules.dom().contains(k));
            assert(b.modules.dom().contains(k));
        }
    }
    lemma_busy_same(a.classes, b.classes, nodes);
    lemma_busy_same(a.modules, b.modules, modules);
}

/// Two calm steps, each keeping what was there, make a calm step.
pub(crate) proof fn lemma_calm_trans(
    a: State,
    b: State,
    c: State,
    nodes: nat,
    modules: nat,
    depth: nat,
)
    requires
        a.kept_by(b) || a.units_added(b),
        b.kept_by(c) || b.units_added(c),
        a.calm(b, nodes, modules, depth),
        b.calm(c, nodes, modules, depth),
        nodes <= usize::MAX,
        modules <= usize::MAX,
    ensures
        a.calm(c, nodes, modules, depth),
{
    lemma_kept_busy(a, b, nodes, modules);
    if a.roomy(nodes, modules, depth) {
        assert forall|i: int|
            a.diagnostics.len() <= i < c.diagnostics.len() implies #[trigger] c.diagnostics[i]
            != Diagnostic::NestingLimit by {
            if i < b.diagnostics.len() {
                assert(b.diagnostics[i] == c.diagnostics.subrange(
                    0,
                    b.diagnostics.len() as int,
                )[i]);
                assert(b.diagnostics[i] != Diagnostic::NestingLimit);
            }
        }
    }
}

/// With enough depth, a table of the tree that is not there can be begun,
/// and the depth that is left is enough for what is then in progress.
pub(crate) proof fn lemma_class_begun(a: State, c: Node, nodes: nat, modules: nat, depth: nat)
    requires
        a.class_slot(c) is None,
        c.index < nodes,
        a.roomy(nodes, modules, depth),
        nodes <= usize::MAX,
        modules <= usize::MAX,
    ensures
        depth > 0,
        a.with_class(c, Slot::Busy).roomy(nodes, modules, (depth - 1) as nat),
{
    lemma_busy_bound(a.classes, nodes, c.index);
    lemma_busy_bound(a.modules, modules, 0);
    lemma_busy_begun(a.classes, nodes, c.index);
}

/// The same for the table of a unit.
pub(crate) proof fn lemma_unit_begun(a: State, m: Module, nodes: nat, modules: nat, depth: nat)
    requires
        a.module_slot(m) is None,
        m.index < modules,
        a.roomy(nodes, modules, depth),
        nodes <= usize::MAX,
        modules <= usize::MAX,
    ensures
        depth > 0,
        a.with_module(m, Slot::Busy).roomy(nodes, modules, (depth - 1) as nat),
{
    lemma_busy_bound(a.modules, modules, m.index);
    lemma_busy_bound(a.classes, nodes, 0);
    lemma_busy_begun(a.modules, modules, m.index);
}

/// Keeping composes.
pub(crate) proof fn lemma_kept_trans(a: State, b: State, c: State)
    requires
        a.kept_by(b),
        b.kept_by(c),
    ensures
        a.kept_by(c),
{
    vstd::map_lib::lemma_submap_of_trans(a.res, b.res, c.res);
    vstd::map_lib::lemma_submap_of_trans(a.classes, b.classes, c.classes);
    vstd::map_lib::lemma_submap_of_trans(a.modules, b.modules, c.modules);
}

/// Adding tables of units composes, and it keeps what was there.
pub(crate) proof fn lemma_units_added_trans(a: State, b: State, c: State)
    requires
        a.units_added(b),
        b.units_added(c),
    ensures
        a.units_added(c),
        a.kept_by(b),
{
    vstd::map_lib::lemma_submap_of_trans(a.modules, b.modules, c.modules);
    lemma_units_blamed_trans(a, b, c);
}

/// Blaming units composes.
pub(crate) proof fn lemma_units_blamed_trans(a: State, b: State, c: State)
    requires
        a.diagnostics.is_prefix_of(b.diagnostics),
        b.diagnostics.is_prefix_of(c.diagnostics),
        a.units_blamed(b),
        b.units_blamed(c),
    ensures
        a.units_blamed(c),
{
    assert forall|i: int|
        #![trigger c.diagnostics[i]]
        a.diagnostics.len() <= i < c.diagnostics.len() implies about_units(c.diagnostics[i]) by {
        if i < b.diagnostics.len() {
            assert(b.diagnostics[i] == c.diagnostics.subrange(0, b.diagnostics.len() as int)[i]);
            assert(about_units(b.diagnostics[i]));
        }
    }
}

/// Starting a table that is not there and finishing it later adds that table.
pub(crate) proof fn lemma_unit_finished(a: State, b: State, m: Module, frames: Seq<Frame>)
    requires
        a.module_slot(m) is None,
        a.with_module(m, Slot::Busy).units_added(b),
    ensures
        a.units_added(b.with_module(m, Slot::Ready(frames))),
{
    let first = a.with_module(m, Slot::Busy);
    let last = b.with_module(m, Slot::Ready(frames));
    assert forall|k: usize| #[trigger]
        a.modules.dom().contains(k) implies last.modules.dom().contains(k) && a.modules[k]
        == last.modules[k] by {
        assert(k != m.index);
        assert(first.modules.dom().contains(k));
        assert(b.modules.dom().contains(k));
    }
}

/// Starting a class table that is not there and finishing it later keeps
/// everything else.
pub(crate) proof fn lemma_class_finished(a: State, b: State, c: Node, frames: Seq<Frame>)
    requires
        a.class_slot(c) is None,
        a.with_class(c, Slot::Busy).kept_by(b),
    ensures
        a.kept_by(b.with_class(c, Slot::Ready(frames))),
{
    let first = a.with_class(c, Slot::Busy);
    let last = b.with_class(c, Slot::Ready(frames));
    assert forall|k: usize| #[trigger]
        a.classes.dom().contains(k) implies last.classes.dom().contains(k) && a.classes[k]
        == last.classes[k] by {
        assert(k != c.index);
        assert(first.classes.dom().contains(k));
        assert(b.classes.dom().contains(k));
    }
    assert forall|k: usize| #[trigger] a.res.dom().contains(k) implies last.res.dom().contains(k)
        && a.res[k] == last.res[k] by {
        assert(first.res.dom().contains(k));
    }
    assert forall|k: usize| #[trigger]
        a.modules.dom().contains(k) implies last.modules.dom().contains(k) && a.modules[k]
        == last.modules[k] by {
        assert(first.modules.dom().contains(k));
    }
}

/// What a table holds for one handle.
pub enum Cached {
    Absent,
    Busy,
    Ready(ScopeChain),
}

impl Cached {
    pub open spec fn slot(self) -> Option<Slot> {
        match self {
            Cached::Absent => None,
            Cached::Busy => Some(Slot::Busy),
            Cached::Ready(chain) => Some(Slot::Ready(chain@)),
        }
    }
}

/// What a table holds for a handle that has an entry.
enum Entry {
    Busy,
    Ready(ScopeChain),
}

spec fn entry_slot(entry: Entry) -> Slot {
    match entry {
        Entry::Busy => Slot::Busy,
        Entry::Ready(chain) => Slot::Ready(chain@),
    }
}

spec fn table_slots(table: Map<usize, Entry>) -> Map<usize, Slot> {
    Map::new(|k: usize| table.contains_key(k), |k: usize| entry_slot(table[k]))
}

/// What `table` holds for `key`; a table that is ready is handed out as a copy.
fn table_get(table: &HashMap<usize, Entry>, key: usize) -> (cached: Cached)
    ensures
        cached.slot() == if table_slots(table@).contains_key(key) {
            Some(table_slots(table@)[key])
        } else {
            None
        },
{
    match table.get(&key) {
        None => Cached::Absent,
        Some(Entry::Busy) => Cached::Busy,
        Some(Entry::Ready(chain)) => Cached::Ready(chain.clone()),
    }
}

/// Puts `entry` into `table` for `key`.
fn table_put(table: &mut HashMap<usize, Entry>, key: usize, entry: Entry)
    ensures
        table_slots(final(table)@) == table_slots(old(table)@).insert(key, entry_slot(entry)),
{
    table.insert(key, entry);
    assert(table_slots(table@) =~= table_slots(old(table)@).insert(key, entry_slot(entry)));
}

/// The side tables of one resolution session.
pub struct Analysis {
    res: HashMap<usize, Res>,
    classes: HashMap<usize, Entry>,
    modules: HashMap<usize, Entry>,
    diagnostics: Vec<Diagnostic>,
}

impl View for Analysis {
    type V = State;

    closed spec fn view(&self) -> State {
        State {
            res: self.res@,
            classes: table_slots(self.classes@),
            modules: table_slots(self.modules@),
            diagnostics: self.diagnostics@,
        }
    }
}

impl Analysis {
    /// Tables without any entry.
    pub fn new() -> (an: Analysis)
        ensures
            an@ == State::empty(),
    {
        let an = Analysis {
            res: HashMap::new(),
            classes: HashMap::new(),
            modules: HashMap::new(),
            diagnostics: Vec::new(),
        };
        assert(an@ =~= State::empty());
        an
    }

    /// The result attached to `n`, if any.
    pub fn res(&self, n: Node) -> (res: Option<Res>)
        ensures
            res == self@.res_of(n),
    {
        match self.res.get(&n.index) {
            Some(res) => Some(*res),
            None => None,
        }
    }

    /// Attaches `res` to `n`, unless `n` has a result already.
    pub fn attach(&mut self, n: Node, res: Res)
        ensures
            final(self)@ == old(self)@.attach(n, res),
            old(self)@.kept_by(final(self)@),
            old(self)@.quiet_until(final(self)@),
            final(self)@.res.contains_key(n.index),
    {
        if !self.res.contains_key(&n.index) {
            self.res.insert(n.index, res);
        }
    }

    /// The export table kept for the class `c`, or how far it has got.
    pub fn class_table(&self, c: Node) -> (cached: Cached)
        ensures
            cached.slot() == self@.class_slot(c),
    {
        table_get(&self.classes, c.index)
    }

    /// Marks the export table of `c` as being computed.
    pub fn begin_class(&mut self, c: Node)
        ensures
            final(self)@ == old(self)@.with_class(c, Slot::Busy),
    {
        table_put(&mut self.classes, c.index, Entry::Busy);
    }

    /// Keeps `chain` as the export table of `c`.
    pub fn finish_class(&mut self, c: Node, chain: ScopeChain)
        ensures
            final(self)@ == old(self)@.with_class(c, Slot::Ready(chain@)),
    {
        table_put(&mut self.classes, c.index, Entry::Ready(chain));
    }

    /// The export table kept for the unit `m`, or how far it has got.
    pub fn module_table(&self, m: Module) -> (cached: Cached)
        ensures
            cached.slot() == self@.module_slot(m),
    {
        table_get(&self.modules, m.index)
    }

    /// Marks the export table of `m` as being computed.
    pub fn begin_module(&mut self, m: Module)
        ensures
            final(self)@ == old(self)@.with_module(m, Slot::Busy),
    {
        table_put(&mut self.modules, m.index, Entry::Busy);
    }

    /// Keeps `chain` as the export table of `m`.
    pub fn finish_module(&mut self, m: Module, chain: ScopeChain)
        ensures
            final(self)@ == old(self)@.with_module(m, Slot::Ready(chain@)),
    {
        table_put(&mut self.modules, m.index, Entry::Ready(chain));
    }

    /// Appends a diagnostic.
    pub fn report(&mut self, diagnostic: Diagnostic)
        ensures
            final(self)@ == old(self)@.report(diagnostic),
            about_units(diagnostic) ==> old(self)@.units_added(final(self)@),
            old(self)@.kept_by(final(self)@),
            diagnostic != Diagnostic::NestingLimit ==> old(self)@.quiet_until(final(self)@),
    {
        self.diagnostics.push(diagnostic);
    }

    /// The diagnostics raised so far, oldest first.
    pub fn diagnostics(&self) -> (all: &Vec<Diagnostic>)
        ensures
            all@ == self@.diagnostics,
    {
        &self.diagnostics
    }
}

} // verus!
