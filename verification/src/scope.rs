//! Lexical environments: a local frame of bindings on top of enclosing frames.
//!
//! A chain is modelled as a sequence of finite maps, outermost frame first and
//! the local frame last. Every operation is specified over that sequence.

use std::collections::HashMap;
use vstd::prelude::*;
use vstd::std_specs::iter::IteratorSpec;
use crate::res::{Res, Symbol};

verus! {

broadcast use vstd::std_specs::hash::group_hash_axioms;

/// One frame of bindings.
pub type Frame = Map<Symbol, Res>;

/// The binding of `name` seen from the innermost frame outwards, or `Res::Error`
/// when no frame binds it.
pub open spec fn lookup_in(frames: Seq<Frame>, name: Symbol) -> Res
    decreases frames.len(),
{
    if frames.len() == 0 {
        Res::Error
    } else if frames.last().contains_key(name) {
        frames.last()[name]
    } else {
        lookup_in(frames.drop_last(), name)
    }
}

/// All frames merged into one map; an inner frame shadows the frames around it.
pub open spec fn flatten(frames: Seq<Frame>) -> Frame
    decreases frames.len(),
{
    if frames.len() == 0 {
        Map::empty()
    } else {
        flatten(frames.drop_last()).union_prefer_right(frames.last())
    }
}

/// `frames` with its local frame replaced by `local`.
pub open spec fn with_local(frames: Seq<Frame>, local: Frame) -> Seq<Frame> {
    if frames.len() == 0 {
        frames
    } else {
        frames.drop_last().push(local)
    }
}

/// `frames` after binding `name` to `res` in the local frame.
pub open spec fn bind(frames: Seq<Frame>, name: Symbol, res: Res) -> Seq<Frame> {
    with_local(frames, frames.last().insert(name, res))
}

/// `frames` after dropping `name` from the local frame.
pub open spec fn unbind(frames: Seq<Frame>, name: Symbol) -> Seq<Frame> {
    with_local(frames, frames.last().remove(name))
}

/// `frames` after merging the whole of `other`, flattened, into the local frame.
pub open spec fn overlay(frames: Seq<Frame>, other: Seq<Frame>) -> Seq<Frame> {
    with_local(frames, frames.last().union_prefer_right(flatten(other)))
}

/// `after` differs from `before` in its local frame at most, and the local
/// frame still binds every name that it bound.
pub open spec fn local_growth(before: Seq<Frame>, after: Seq<Frame>) -> bool {
    &&& after.len() == before.len()
    &&& after.drop_last() == before.drop_last()
    &&& before.last().dom().subset_of(after.last().dom())
}

/// Replacing the local frame by one that binds at least the same names is a
/// local growth.
pub(crate) proof fn lemma_with_local_grows(frames: Seq<Frame>, local: Frame)
    requires
        frames.len() > 0,
        frames.last().dom().subset_of(local.dom()),
    ensures
        local_growth(frames, with_local(frames, local)),
        with_local(frames, local).last() == local,
{
    assert(with_local(frames, local).drop_last() =~= frames.drop_last());
}

/// Binding a name and merging another chain are local growths.
pub(crate) proof fn lemma_bind_overlay_grow(
    frames: Seq<Frame>,
    name: Symbol,
    res: Res,
    other: Seq<Frame>,
)
    requires
        frames.len() > 0,
    ensures
        local_growth(frames, bind(frames, name, res)),
        bind(frames, name, res).last() == frames.last().insert(name, res),
        local_growth(frames, overlay(frames, other)),
{
    lemma_with_local_grows(frames, frames.last().insert(name, res));
    lemma_with_local_grows(frames, frames.last().union_prefer_right(flatten(other)));
}

/// The flattened map binds exactly the names that lookup finds, to the same values.
pub proof fn lemma_flatten_lookup(frames: Seq<Frame>, name: Symbol)
    ensures
        flatten(frames).contains_key(name) ==> flatten(frames)[name] == lookup_in(frames, name),
        !flatten(frames).contains_key(name) ==> lookup_in(frames, name) == Res::Error,
    decreases frames.len(),
{
    if frames.len() > 0 {
        lemma_flatten_lookup(frames.drop_last(), name);
    }
}

/// Looking a name up right after binding it yields the bound value, and no
/// other name is affected.
pub proof fn lemma_lookup_after_bind(frames: Seq<Frame>, name: Symbol, res: Res, other: Symbol)
    requires
        frames.len() > 0,
    ensures
        lookup_in(bind(frames, name, res), name) == res,
        other != name ==> lookup_in(bind(frames, name, res), other) == lookup_in(frames, other),
{
    let bound = bind(frames, name, res);
    assert(bound.drop_last() =~= frames.drop_last());
}

/// A chain made of one empty frame resolves every name to `Res::Error`.
pub proof fn lemma_lookup_empty(name: Symbol)
    ensures
        lookup_in(seq![Map::<Symbol, Res>::empty()], name) == Res::Error,
{
    let frames = seq![Map::<Symbol, Res>::empty()];
    assert(frames.drop_last().len() == 0);
    reveal_with_fuel(lookup_in, 2);
}

/// After merging `other` into `frames`, a name that `other` binds anywhere in
/// its chain resolves as it does in `other` (so the innermost frame of `other`
/// wins over its ancestors, and `other` wins over the receiver); any other
/// name resolves as before.
pub proof fn lemma_lookup_after_overlay(frames: Seq<Frame>, other: Seq<Frame>, name: Symbol)
    requires
        frames.len() > 0,
    ensures
        flatten(other).contains_key(name) ==> lookup_in(overlay(frames, other), name) == lookup_in(
            other,
            name,
        ),
        !flatten(other).contains_key(name) ==> lookup_in(overlay(frames, other), name) == lookup_in(
            frames,
            name,
        ),
        overlay(frames, other).len() == frames.len(),
{
    lemma_flatten_lookup(other, name);
    let merged = overlay(frames, other);
    assert(merged.drop_last() =~= frames.drop_last());
}

/// Copies every binding of `src` into `dst`; a name bound in both takes the value from `src`.
fn merge_frame(dst: &mut HashMap<Symbol, Res>, src: &HashMap<Symbol, Res>)
    ensures
        final(dst)@ == old(dst)@.union_prefer_right(src@),
{
    let ghost start = dst@;
    for entry in it: src.iter()
        invariant
            it.seq() == src.iter().remaining(),
            forall|j: int| 0 <= j < it.index() ==> #[trigger] dst@.contains_key(*it.seq()[j].0),
            forall|j: int|
                0 <= j < it.index() ==> dst@[*it.seq()[j].0] == #[trigger] src@[*it.seq()[j].0],
            forall|k: Symbol| start.contains_key(k) ==> #[trigger] dst@.contains_key(k),
            forall|k: Symbol| #[trigger]
                dst@.contains_key(k) ==> if src@.contains_key(k) {
                    dst@[k] == src@[k] || (start.contains_key(k) && dst@[k] == start[k])
                } else {
                    start.contains_key(k) && dst@[k] == start[k]
                },
    {
        let (k, v) = entry;
        assert(src@.contains_key(*it.seq()[it.index()].0));
        dst.insert(*k, *v);
    }
    proof {
        let seq = src.iter().remaining();
        assert forall|k: Symbol| src@.contains_key(k) implies dst@.contains_key(k) && dst@[k]
            == src@[k] by {
            assert(seq.contains((&k, &src@[k])));
            let j = choose|j: int| 0 <= j < seq.len() && seq[j] == (&k, &src@[k]);
            assert(dst@.contains_key(*seq[j].0));
        }
        assert(dst@ =~= start.union_prefer_right(src@));
    }
}

/// A lexical environment: local bindings plus the enclosing environments.
pub struct ScopeChain {
    outer: Vec<HashMap<Symbol, Res>>,
    local: HashMap<Symbol, Res>,
}

impl View for ScopeChain {
    type V = Seq<Frame>;

    closed spec fn view(&self) -> Seq<Frame> {
        Seq::new(self.outer@.len(), |i: int| self.outer@[i]@).push(self.local@)
    }
}

impl Clone for ScopeChain {
    fn clone(&self) -> (copy: ScopeChain)
        ensures
            copy@ == self@,
    {
        let mut outer: Vec<HashMap<Symbol, Res>> = Vec::new();
        let mut i: usize = 0;
        while i < self.outer.len()
            invariant
                i <= self.outer.len(),
                outer@.len() == i,
                forall|j: int| 0 <= j < i ==> outer@[j]@ == self.outer@[j]@,
            decreases self.outer.len() - i,
        {
            outer.push(self.outer[i].clone());
            i = i + 1;
        }
        let copy = ScopeChain { outer, local: self.local.clone() };
        assert(copy@ =~= self@);
        copy
    }
}

impl ScopeChain {
    /// A chain always has its local frame.
    pub proof fn lemma_nonempty(&self)
        ensures
            self@.len() > 0,
    {
    }

    /// A fresh, empty local frame on top of `parent`, or alone when there is none.
    pub fn new(parent: Option<ScopeChain>) -> (chain: ScopeChain)
        ensures
            chain@ == match parent {
                Some(p) => p@.push(Map::empty()),
                None => seq![Map::empty()],
            },
            parent is None ==> forall|name: Symbol| #[trigger]
                lookup_in(chain@, name) == Res::Error,
    {
        match parent {
            Some(p) => {
                let ghost before = p@;
                let mut outer = p.outer;
                outer.push(p.local);
                let chain = ScopeChain { outer, local: HashMap::new() };
                assert(chain@ =~= before.push(Map::empty()));
                chain
            },
            None => {
                let chain = ScopeChain { outer: Vec::new(), local: HashMap::new() };
                assert(chain@ =~= seq![Map::empty()]);
                assert forall|name: Symbol| #[trigger] lookup_in(chain@, name) == Res::Error by {
                    lemma_lookup_empty(name);
                }
                chain
            },
        }
    }

    /// Number of frames around the local one.
    pub fn enclosing(&self) -> (n: usize)
        ensures
            n == self@.len() - 1,
    {
        self.outer.len()
    }

    /// Puts the local frame on top of `parent`; the frames that enclosed it before are dropped.
    pub fn set_parent(&mut self, parent: ScopeChain)
        ensures
            final(self)@ == parent@.push(old(self)@.last()),
    {
        let mut outer = parent.outer;
        outer.push(parent.local);
        self.outer = outer;
        assert(self@ =~= parent@.push(old(self)@.last()));
    }

    /// Looks `name` up in the local frame, then in each enclosing frame in turn.
    pub fn lookup(&self, name: Symbol) -> (res: Res)
        ensures
            res == lookup_in(self@, name),
    {
        if let Some(found) = self.local.get(&name) {
            return *found;
        }
        let mut i: usize = self.outer.len();
        assert(self@.drop_last() =~= self@.subrange(0, i as int));
        while i > 0
            invariant
                i <= self.outer.len(),
                lookup_in(self@, name) == lookup_in(self@.subrange(0, i as int), name),
            decreases i,
        {
            i = i - 1;
            let ghost prefix = self@.subrange(0, i + 1);
            assert(prefix.last() == self.outer@[i as int]@);
            assert(prefix.drop_last() =~= self@.subrange(0, i as int));
            if let Some(found) = self.outer[i].get(&name) {
                return *found;
            }
        }
        Res::Error
    }

    /// Whether the local frame binds `name`.
    pub fn binds_locally(&self, name: Symbol) -> (bound: bool)
        ensures
            bound == self@.last().contains_key(name),
    {
        self.local.contains_key(&name)
    }

    /// Binds `name` in the local frame; an earlier local binding of it is overwritten.
    pub fn record(&mut self, name: Symbol, res: Res)
        ensures
            final(self)@ == bind(old(self)@, name, res),
            lookup_in(final(self)@, name) == res,
            forall|other: Symbol|
                other != name ==> #[trigger] lookup_in(final(self)@, other) == lookup_in(
                    old(self)@,
                    other,
                ),
    {
        self.local.insert(name, res);
        assert(self@ =~= bind(old(self)@, name, res));
        assert forall|other: Symbol| other != name implies #[trigger] lookup_in(self@, other)
            == lookup_in(old(self)@, other) by {
            lemma_lookup_after_bind(old(self)@, name, res, other);
        }
        proof {
            lemma_lookup_after_bind(old(self)@, name, res, name);
        }
    }

    /// Drops `name` from the local frame; enclosing frames are left alone.
    pub fn remove(&mut self, name: Symbol)
        ensures
            final(self)@ == unbind(old(self)@, name),
    {
        self.local.remove(&name);
        assert(self@ =~= unbind(old(self)@, name));
    }

    /// Merges `scope` into the local frame: first its outermost frame, then each
    /// frame inside it, last its local frame, so that inner bindings of `scope`
    /// win over outer ones and all of them win over the receiver's.
    pub fn extend(&mut self, scope: &ScopeChain)
        ensures
            final(self)@ == overlay(old(self)@, scope@),
            forall|name: Symbol| #[trigger]
                lookup_in(final(self)@, name) == if flatten(scope@).contains_key(name) {
                    lookup_in(scope@, name)
                } else {
                    lookup_in(old(self)@, name)
                },
    {
        let ghost start = self.local@;
        let mut i: usize = 0;
        assert(scope@.subrange(0, 0).len() == 0);
        assert(self.local@ =~= start.union_prefer_right(flatten(scope@.subrange(0, 0))));
        while i < scope.outer.len()
            invariant
                i <= scope.outer.len(),
                self.outer == old(self).outer,
                self.local@ == start.union_prefer_right(flatten(scope@.subrange(0, i as int))),
            decreases scope.outer.len() - i,
        {
            merge_frame(&mut self.local, &scope.outer[i]);
            proof {
                let next = scope@.subrange(0, i + 1);
                assert(next.last() == scope.outer@[i as int]@);
                assert(next.drop_last() =~= scope@.subrange(0, i as int));
                assert(self.local@ =~= start.union_prefer_right(flatten(next)));
            }
            i = i + 1;
        }
        merge_frame(&mut self.local, &scope.local);
        proof {
            assert(scope@.drop_last() =~= scope@.subrange(0, i as int));
            assert(self.local@ =~= start.union_prefer_right(flatten(scope@)));
            assert(self@ =~= overlay(old(self)@, scope@));
            assert forall|name: Symbol| #[trigger]
                lookup_in(self@, name) == if flatten(scope@).contains_key(name) {
                    lookup_in(scope@, name)
                } else {
                    lookup_in(old(self)@, name)
                } by {
                lemma_lookup_after_overlay(old(self)@, scope@, name);
            }
        }
    }

    /// Opens a fresh local frame on top of the current one.
    pub fn enter(&mut self)
        ensures
            final(self)@ == old(self)@.push(Map::empty()),
    {
        let mut local: HashMap<Symbol, Res> = HashMap::new();
        core::mem::swap(&mut self.local, &mut local);
        self.outer.push(local);
        assert(self@ =~= old(self)@.push(Map::empty()));
    }

    /// Discards the local frame and makes the enclosing frame local again.
    /// A chain of a single frame is left as it is.
    pub fn leave(&mut self)
        ensures
            final(self)@ == if old(self)@.len() > 1 {
                old(self)@.drop_last()
            } else {
                old(self)@
            },
    {
        match self.outer.pop() {
            Some(frame) => {
                self.local = frame;
                assert(self@ =~= old(self)@.drop_last());
            },
            None => {
                assert(self@ =~= old(self)@);
            },
        }
    }
}

} // verus!
