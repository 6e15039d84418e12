//! The scene-tree relation and its maintenance system.
//!
//! `Parent` is the authoritative relation, written by application code;
//! `PreviousParent` is the maintenance system's cache of the parent it
//! last reconciled, used to find the stale child list on a reparent;
//! `Children` holds the back-references. The maintenance system drains
//! the `Parent` change events since its last pass and incrementally
//! brings `Children` and `PreviousParent` back in step, staging through
//! the deferred queue the writes it cannot make while iterating.

use vstd::prelude::*;

use crate::children::Children;
use crate::children::small_vec_view;
use crate::entity::Entity;
use crate::storage::EventKind;
use crate::storage::ReaderId;
use crate::storage::StorageEvent;
use crate::world::LazyOp;
use crate::world::World;
use crate::world::op_bounded;
use crate::world::WorldModel;
use crate::world::children_op_for;
use crate::world::lemma_fold_children_untouched;
use crate::world::lemma_fold_children_write;
use crate::world::lemma_fold_prev_untouched;
use crate::world::lemma_fold_prev_write;
use crate::world::prev_op_for;

verus! {

/// The immediate parent of an entity; at most one per entity.
#[derive(Clone, Copy, PartialEq, Eq, Structural, Debug)]
pub struct Parent(pub Entity);

/// The parent value last reconciled by the hierarchy maintenance system.
/// Present exactly for entities that had a `Parent` at the last pass.
#[derive(Clone, Copy, PartialEq, Eq, Structural, Debug)]
pub struct PreviousParent(pub Entity);

/// The entities named by undrained insert or modify events; removals are
/// deliberately ignored, the absence of `Parent` speaks for itself.
pub open spec fn dirty_of(evs: Seq<StorageEvent>) -> Set<int> {
    Set::new(
        |e: int|
            exists|k: int|
                0 <= k < evs.len() && ((#[trigger] evs[k]).kind != EventKind::Removed)
                    && evs[k].entity as int == e,
    )
}

/// The entities named by undrained insert or modify events, in delivery
/// order, each at its first occurrence only.
pub open spec fn dirty_seq(evs: Seq<StorageEvent>) -> Seq<u32>
    decreases evs.len(),
{
    if evs.len() == 0 {
        Seq::empty()
    } else {
        let pre = dirty_seq(evs.drop_last());
        if evs.last().kind != EventKind::Removed && !pre.contains(evs.last().entity) {
            pre.push(evs.last().entity)
        } else {
            pre
        }
    }
}

/// The staged list for parent `p` after the first `k` entries of the
/// dirty list `d`: in dirty order, those whose current parent is `p` and
/// whose cache does not already name `p`.
pub open spec fn fresh_list_prefix(w0: World, d: Seq<u32>, k: int, p: int) -> Seq<Entity> {
    d.take(k).filter(
        |x: u32| w0.parent_index(x as int) == Some(p) && w0.prev_index(x as int) != Some(p),
    ).map_values(|x: u32| Entity { index: x })
}

/// The list a fresh `Children` insertion carries for parent `p`: the
/// dirty entities whose current parent is `p` and whose cache does not
/// already name `p`, in event-delivery order, each once.
pub open spec fn fresh_list_spec(w0: World, evs: Seq<StorageEvent>, p: int) -> Seq<Entity> {
    fresh_list_prefix(w0, dirty_seq(evs), dirty_seq(evs).len() as int, p)
}

/// Whether the event stream holds nothing but removals.
pub open spec fn all_removed(evs: Seq<StorageEvent>) -> bool {
    forall|k: int| 0 <= k < evs.len() ==> (#[trigger] evs[k]).kind == EventKind::Removed
}

/// No child list records an entity twice.
pub open spec fn children_dup_free(ch: Map<int, Seq<Entity>>) -> bool {
    forall|p: int| #[trigger] ch.dom().contains(p) ==> crate::children::seq_dup_free(ch[p])
}

/// The books the maintenance system keeps between passes: every recorded
/// child's cache points back to the recording parent, and every cached
/// parent records the child.
pub open spec fn hier_linked(m: WorldModel, n: int) -> bool {
    &&& forall|p: int, i: int|
        m.children.dom().contains(p) && 0 <= i < m.children[p].len() ==> m.prev.dom().contains(
            (#[trigger] m.children[p][i]).index as int,
        ) && m.prev[m.children[p][i].index as int] == p
    &&& forall|e: int| #[trigger] m.prev.dom().contains(e) ==> 0 <= e < n
        && m.children.dom().contains(m.prev[e]) && m.children[m.prev[e]].contains(
            Entity { index: e as u32 },
        )
}

/// The cache is in step with the undrained events: an entity that is not
/// dirty has its cache equal to its parent.
pub open spec fn cache_synced(w: World, dirty: Set<int>) -> bool {
    forall|e: int|
        0 <= e < w.entity_count && !dirty.contains(e) ==> #[trigger] w.prev_index(e)
            == w.parent_index(e)
}

/// No dirty entity both lost its parent and was already recorded under a
/// previous one: a reparent followed by a removal inside one tick is the
/// one history that leaves a stale record behind.
pub open spec fn no_lost_recorded(w: World, dirty: Set<int>) -> bool {
    forall|e: int|
        #[trigger] dirty.contains(e) && w.parent_index(e) is None ==> w.prev_index(e) is None
}

/// Whether reconciling the dirty set may rewrite the child list of `p`:
/// only lists a dirty entity moves into or out of are written.
pub open spec fn touches(w: World, dirty: Set<int>, p: int) -> bool {
    exists|e: int|
        #[trigger] dirty.contains(e) && w.parent_index(e) is Some && (w.parent_index(e) == Some(p)
            || w.prev_index(e) == Some(p))
}

/// What one maintenance pass guarantees, stated between the pre-state
/// `w0` and the post-state `w1`, over the state `w1.folded()` that the
/// next barrier will commit.
pub open spec fn maintenance_spec(w0: World, w1: World, r: ReaderId) -> bool {
    let n = w0.entity_count as int;
    let dirty = dirty_of(w0.parents.pending(r));
    let m0 = w0.model();
    let f = w1.folded();
    // the frame: entities, transforms and the parent relation are untouched
    &&& w1.entity_count == w0.entity_count
    &&& w1.locals == w0.locals
    &&& w1.globals == w0.globals
    &&& forall|x: int| #[trigger] w1.parents.spec_get(x) == w0.parents.spec_get(x)
    &&& w1.parents.log() == w0.parents.log()
    &&& w1.parents.reader_count() == w0.parents.reader_count()
    // the reader cursor was drained in full, and no other cursor moved
    &&& w1.parents.pending(r) == Seq::<StorageEvent>::empty()
    &&& forall|q: ReaderId|
        0 <= q.id < w0.parents.reader_count() && q.id != r.id ==> #[trigger] w1.parents.cursor(q)
            == w0.parents.cursor(q)
    // the cache after the barrier: removed with the parent, retargeted for
    // the dirty, untouched for the rest
    &&& forall|e: int|
        0 <= e < n ==> #[trigger] f.prev.dom().contains(e) == (if w0.parent_index(e) is None {
            false
        } else if dirty.contains(e) {
            true
        } else {
            m0.prev.dom().contains(e)
        })
    &&& forall|e: int|
        0 <= e < n && #[trigger] f.prev.dom().contains(e) ==> f.prev[e] == (if dirty.contains(e) {
            w0.parent_index(e).unwrap()
        } else {
            m0.prev[e]
        })
    &&& forall|e: int|
        !(0 <= e < n) ==> (#[trigger] f.prev.dom().contains(e) == m0.prev.dom().contains(e) && (
        m0.prev.dom().contains(e) ==> f.prev[e] == m0.prev[e]))
    // lists nothing moved into or out of are left exactly as they were
    &&& forall|p: int|
        !touches(w0, dirty, p) ==> ((#[trigger] f.children.dom().contains(p))
            == m0.children.dom().contains(p) && (m0.children.dom().contains(p) ==> f.children[p]
            == m0.children[p]))
    // no list is dropped
    &&& forall|p: int| #[trigger] m0.children.dom().contains(p) ==> f.children.dom().contains(p)
    // membership of entities that were not dirtied, or that have no
    // parent to be recorded under, is untouched
    &&& forall|q: int, x: int|
        #![trigger f.children[q].contains(Entity { index: x as u32 })]
        0 <= x < n && (!dirty.contains(x) || w0.parent_index(x) is None) ==> ((f.children.dom()
            .contains(q) && f.children[q].contains(Entity { index: x as u32 })) == (
        m0.children.dom().contains(q) && m0.children[q].contains(Entity { index: x as u32 })))
    // under the inter-tick books, every dirty entity is recorded under its
    // current parent and leaves every other list
    &&& (hier_linked(m0, n) && children_dup_free(m0.children) ==> forall|e: int|
        #[trigger] dirty.contains(e) && w0.parent_index(e) is Some ==> f.children.dom().contains(
            w0.parent_index(e).unwrap(),
        ) && f.children[w0.parent_index(e).unwrap()].contains(Entity { index: e as u32 }))
    &&& (hier_linked(m0, n) && children_dup_free(m0.children) ==> forall|e: int, q: int|
        #![trigger dirty.contains(e), f.children[q]]
        dirty.contains(e) && w0.parent_index(e) is Some && q != w0.parent_index(e).unwrap()
            && f.children.dom().contains(q) ==> !f.children[q].contains(Entity { index: e as u32 }))
    // a parent that had no list gets exactly one staged insertion,
    // holding its dirty children in event-delivery order, each once; no
    // fresh list appears without a dirty child to put in it
    &&& forall|p: int|
        !m0.children.dom().contains(p) ==> ((#[trigger] f.children.dom().contains(p)) == (
        fresh_list_spec(w0, w0.parents.pending(r), p).len() > 0) && (f.children.dom().contains(p)
            ==> f.children[p] == fresh_list_spec(w0, w0.parents.pending(r), p)))
    // duplicates never appear
    &&& (children_dup_free(m0.children) ==> children_dup_free(f.children))
    // a pass with nothing to do writes nothing at all
    &&& (all_removed(w0.parents.pending(r)) && (forall|e: int|
        0 <= e < n ==> !(#[trigger] w0.prev_parents.has(e) && !w0.parents.has(e)))
        ==> w1.prev_parents == w0.prev_parents && w1.children == w0.children && w1.lazy
        == w0.lazy)
    &&& w1.wf()
}

/// The hierarchy maintenance system: owns one reader cursor on the
/// `Parent` change stream, created at setup.
pub struct HierarchySystem {
    pub reader_id: Option<ReaderId>,
}

impl HierarchySystem {
    /// A system not yet wired to a world; it must be `setup` before it
    /// can run.
    pub fn new() -> (s: Self)
        ensures
            s.reader_id is None,
    {
        HierarchySystem { reader_id: None }
    }

    /// Register this system's reader cursor on the `Parent` storage.
    pub fn setup(&mut self, res: &mut World)
        requires
            old(res).wf(),
        ensures
            final(res).wf(),
            final(self).reader_id is Some,
            final(self).reader_id.unwrap().id as int == old(res).parents.reader_count(),
            final(res).parents.reader_count() == old(res).parents.reader_count() + 1,
            final(res).parents.pending(final(self).reader_id.unwrap())
                == Seq::<StorageEvent>::empty(),
            forall|x: int| #[trigger] final(res).parents.spec_get(x)
                == old(res).parents.spec_get(x),
            final(res).parents.log() == old(res).parents.log(),
            forall|q: ReaderId| 0 <= q.id < old(res).parents.reader_count()
                ==> #[trigger] final(res).parents.cursor(q) == old(res).parents.cursor(q),
            final(res).prev_parents == old(res).prev_parents,
            final(res).children == old(res).children,
            final(res).locals == old(res).locals,
            final(res).globals == old(res).globals,
            final(res).lazy == old(res).lazy,
            final(res).entity_count == old(res).entity_count,
    {
        let r = res.parents.register_reader();
        self.reader_id = Some(r);
    }
}

/// Whether `op` is a cache removal for a cleanup candidate of `w0`: an
/// entity that still has a cache but no longer a parent.
pub open spec fn cleanup_op_ok(w0: World, op: LazyOp) -> bool {
    op matches LazyOp::RemovePreviousParent { entity } && entity.index < w0.entity_count
        && w0.prev_parents.has(entity.index as int) && w0.parents.spec_get(entity.index as int) is None
}

/// First pass of the maintenance system: for every entity that has a
/// cached previous parent but no longer a `Parent`, stage removal of the
/// cache.
fn stage_cleanup(w: &mut World)
    requires
        old(w).wf(),
        old(w).lazy@ == Seq::<LazyOp>::empty(),
    ensures
        final(w).wf(),
        final(w).entity_count == old(w).entity_count,
        final(w).parents == old(w).parents,
        final(w).prev_parents == old(w).prev_parents,
        final(w).children == old(w).children,
        final(w).locals == old(w).locals,
        final(w).globals == old(w).globals,
        forall|j: int| 0 <= j < final(w).lazy@.len()
            ==> cleanup_op_ok(*old(w), #[trigger] final(w).lazy@[j]),
        forall|j1: int, j2: int|
            0 <= j1 < j2 < final(w).lazy@.len()
                ==> (#[trigger] final(w).lazy@[j1])->RemovePreviousParent_entity.index
                    < (#[trigger] final(w).lazy@[j2])->RemovePreviousParent_entity.index,
        forall|e: int|
            0 <= e < old(w).entity_count && old(w).prev_parents.has(e) && !old(w).parents.has(e)
                ==> exists|j: int|
                    0 <= j < final(w).lazy@.len()
                        && (#[trigger] final(w).lazy@[j])->RemovePreviousParent_entity.index as int
                            == e,
        (forall|e: int|
            0 <= e < old(w).entity_count
                ==> !(#[trigger] old(w).prev_parents.has(e) && !old(w).parents.has(e)))
            ==> final(w).lazy == old(w).lazy,
{
    let n = w.entity_count;
    let mut e: u32 = 0;
    while e < n
        invariant
            0 <= e <= n,
            n == w.entity_count,
            w.wf(),
            w.entity_count == old(w).entity_count,
            w.parents == old(w).parents,
            w.prev_parents == old(w).prev_parents,
            w.children == old(w).children,
            w.locals == old(w).locals,
            w.globals == old(w).globals,
            forall|j: int| 0 <= j < w.lazy@.len()
                ==> cleanup_op_ok(*old(w), #[trigger] w.lazy@[j]),
            forall|j: int| 0 <= j < w.lazy@.len()
                ==> (#[trigger] w.lazy@[j])->RemovePreviousParent_entity.index < e,
            forall|j1: int, j2: int|
                0 <= j1 < j2 < w.lazy@.len()
                    ==> (#[trigger] w.lazy@[j1])->RemovePreviousParent_entity.index
                        < (#[trigger] w.lazy@[j2])->RemovePreviousParent_entity.index,
            forall|x: int|
                0 <= x < e && old(w).prev_parents.has(x) && !old(w).parents.has(x)
                    ==> exists|j: int|
                        0 <= j < w.lazy@.len()
                            && (#[trigger] w.lazy@[j])->RemovePreviousParent_entity.index as int
                                == x,
            (forall|x: int|
                0 <= x < e ==> !(#[trigger] old(w).prev_parents.has(x) && !old(w).parents.has(x)))
                ==> w.lazy == old(w).lazy,
        decreases n - e,
    {
        let ghost pre_lazy = w.lazy@;
        let candidate = w.prev_parents.get(e).is_some() && w.parents.get(e).is_none();
        if candidate {
            w.lazy.push(LazyOp::RemovePreviousParent { entity: Entity { index: e } });
        }
        proof {
            assert forall|x: int|
                0 <= x < e + 1 && old(w).prev_parents.has(x) && !old(w).parents.has(x)
                implies exists|j: int|
                    0 <= j < w.lazy@.len()
                        && (#[trigger] w.lazy@[j])->RemovePreviousParent_entity.index as int
                            == x by {
                if x == e as int {
                    assert(w.lazy@[w.lazy@.len() - 1]->RemovePreviousParent_entity.index as int
                        == x);
                } else {
                    let j = choose|j: int|
                        0 <= j < pre_lazy.len()
                            && (#[trigger] pre_lazy[j])->RemovePreviousParent_entity.index as int
                                == x;
                    assert(w.lazy@[j] == pre_lazy[j]);
                }
            }
            if !candidate {
                assert(!(old(w).prev_parents.has(e as int) && !old(w).parents.has(e as int)));
            }
        }
        e = e + 1;
    }
}

/// Drain the event stream into the dirty list: the named entities, in
/// delivery order, each at most once, removals ignored.
fn collect_dirty(n: u32, evs: &Vec<StorageEvent>) -> (dirty: Vec<u32>)
    requires
        forall|k: int| 0 <= k < evs@.len() ==> (#[trigger] evs@[k]).entity < n,
    ensures
        dirty@ == dirty_seq(evs@),
        forall|k: int| 0 <= k < dirty@.len() ==> #[trigger] dirty@[k] < n,
        forall|k1: int, k2: int|
            0 <= k1 < k2 < dirty@.len() ==> #[trigger] dirty@[k1] != #[trigger] dirty@[k2],
        forall|k: int| 0 <= k < dirty@.len()
            ==> dirty_of(evs@).contains(#[trigger] dirty@[k] as int),
        forall|x: int| #[trigger] dirty_of(evs@).contains(x)
            ==> exists|k: int| 0 <= k < dirty@.len() && #[trigger] dirty@[k] as int == x,
{
    let mut seen: Vec<bool> = Vec::new();
    let mut i: usize = 0;
    while seen.len() < n as usize
        invariant
            seen@.len() <= n as usize,
            forall|x: int| 0 <= x < seen@.len() ==> !(#[trigger] seen@[x]),
        decreases n as int - seen@.len(),
    {
        seen.push(false);
    }
    let mut dirty: Vec<u32> = Vec::new();
    let mut k: usize = 0;
    while k < evs.len()
        invariant
            0 <= k <= evs@.len(),
            seen@.len() == n as usize,
            forall|j: int| 0 <= j < evs@.len() ==> (#[trigger] evs@[j]).entity < n,
            forall|j: int| 0 <= j < dirty@.len() ==> #[trigger] dirty@[j] < n,
            forall|j: int| 0 <= j < dirty@.len() ==> seen@[#[trigger] dirty@[j] as int],
            forall|x: int| 0 <= x < n && seen@[x]
                ==> exists|j: int| 0 <= j < dirty@.len() && #[trigger] dirty@[j] as int == x,
            forall|j1: int, j2: int|
                0 <= j1 < j2 < dirty@.len() ==> #[trigger] dirty@[j1] != #[trigger] dirty@[j2],
            forall|j: int| 0 <= j < dirty@.len()
                ==> dirty_of(evs@).contains(#[trigger] dirty@[j] as int),
            forall|x: int| #[trigger] dirty_of(evs@.take(k as int)).contains(x)
                ==> 0 <= x < n && seen@[x],
            dirty@ == dirty_seq(evs@.take(k as int)),
        decreases evs@.len() - k,
    {
        let ev = evs[k];
        if !matches!(ev.kind, EventKind::Removed) {
            let x = ev.entity;
            if !seen[x as usize] {
                let ghost pre_dirty = dirty@;
                seen.set(x as usize, true);
                dirty.push(x);
                proof {
                    assert(evs@[k as int].kind != EventKind::Removed);
                    assert(dirty_of(evs@).contains(x as int));
                    assert forall|y: int| 0 <= y < n && seen@[y]
                        implies exists|j: int|
                            0 <= j < dirty@.len() && #[trigger] dirty@[j] as int == y by {
                        if y == x as int {
                            assert(dirty@[dirty@.len() - 1] as int == y);
                        } else {
                            let j = choose|j: int|
                                0 <= j < pre_dirty.len() && #[trigger] pre_dirty[j] as int == y;
                            assert(dirty@[j] as int == y);
                        }
                    }
                }
            }
        }
        proof {
            let ghost cur = dirty@;
            assert(evs@.take(k + 1).drop_last() =~= evs@.take(k as int));
            assert(evs@.take(k + 1).last() == evs@[k as int]);
            assert(dirty@ == dirty_seq(evs@.take(k + 1))) by {
                let pre = dirty_seq(evs@.take(k as int));
                if evs@[k as int].kind != EventKind::Removed && !pre.contains(
                    evs@[k as int].entity,
                ) {
                    assert(dirty_seq(evs@.take(k + 1)) == pre.push(evs@[k as int].entity));
                } else {
                    assert(dirty_seq(evs@.take(k + 1)) == pre);
                    if evs@[k as int].kind != EventKind::Removed {
                        let j = choose|j: int|
                            0 <= j < pre.len() && #[trigger] pre[j] == evs@[k as int].entity;
                        assert(seen@[pre[j] as int]);
                    }
                }
            }
            assert forall|x: int| #[trigger] dirty_of(evs@.take(k + 1)).contains(x)
                implies 0 <= x < n && seen@[x] by {
                let kk = choose|kk: int|
                    0 <= kk < evs@.take(k + 1).len() && ((#[trigger] evs@.take(k + 1)[kk]).kind
                        != EventKind::Removed) && evs@.take(k + 1)[kk].entity as int == x;
                if kk < k {
                    assert(evs@.take(k as int)[kk] == evs@[kk]);
                    assert(dirty_of(evs@.take(k as int)).contains(x));
                }
            }
        }
        k = k + 1;
    }
    proof {
        assert(evs@.take(evs@.len() as int) =~= evs@);
    }
    dirty
}

/// Whether `x` occurs among the first `k` entries of the dirty list.
spec fn in_prefix(d: Seq<u32>, k: int, x: int) -> bool {
    exists|i: int| 0 <= i < k && #[trigger] d[i] as int == x
}

proof fn lemma_in_prefix_step(d: Seq<u32>, k: int)
    requires
        0 <= k < d.len(),
    ensures
        forall|x: int|
            #[trigger] in_prefix(d, k + 1, x) == (in_prefix(d, k, x) || d[k] as int == x),
{
    assert forall|x: int|
        #[trigger] in_prefix(d, k + 1, x) == (in_prefix(d, k, x) || d[k] as int == x) by {
        if in_prefix(d, k + 1, x) {
            let i = choose|i: int| 0 <= i < k + 1 && #[trigger] d[i] as int == x;
            if i < k {
                assert(in_prefix(d, k, x));
            }
        }
        if in_prefix(d, k, x) {
            let i = choose|i: int| 0 <= i < k && #[trigger] d[i] as int == x;
            assert(0 <= i < k + 1 && d[i] as int == x);
            assert(in_prefix(d, k + 1, x));
        }
        if d[k] as int == x {
            assert(in_prefix(d, k + 1, x));
        }
    }
}

proof fn lemma_push_facts(s: Seq<Entity>, e: Entity)
    ensures
        forall|x: Entity| #[trigger] s.push(e).contains(x) == (s.contains(x) || x == e),
        crate::children::seq_dup_free(s) && !s.contains(e) ==> crate::children::seq_dup_free(
            s.push(e),
        ),
{
    assert forall|x: Entity| #[trigger] s.push(e).contains(x) == (s.contains(x) || x == e) by {
        if s.push(e).contains(x) {
            let i = choose|i: int| 0 <= i < s.push(e).len() && s.push(e)[i] == x;
            if i < s.len() {
                assert(s[i] == x);
            }
        }
        if s.contains(x) {
            let i = choose|i: int| 0 <= i < s.len() && s[i] == x;
            assert(s.push(e)[i] == x);
        }
        assert(s.push(e)[s.len() as int] == e);
    }
    if crate::children::seq_dup_free(s) && !s.contains(e) {
        assert forall|i: int, j: int| 0 <= i < j < s.push(e).len() implies s.push(e)[i]
            != s.push(e)[j] by {
            if j == s.len() {
                assert(s.push(e)[i] == s[i]);
                assert(s[i] != e);
            }
        }
    }
}

/// Whether the first `k` dirty entries have already rewritten the cache
/// slot of `x` in place.
spec fn prev_written(w0: World, d: Seq<u32>, k: int, x: int) -> bool {
    in_prefix(d, k, x) && w0.parents.has(x) && w0.prev_parents.has(x)
}

/// Shape of the cache insertions staged by the first `k` dirty entries.
spec fn prev_insert_op_ok(w0: World, d: Seq<u32>, k: int, op: LazyOp) -> bool {
    op matches LazyOp::InsertPreviousParent { entity, parent } && in_prefix(
        d,
        k,
        entity.index as int,
    ) && w0.parents.spec_get(entity.index as int) == Some(Parent(parent)) && !w0.prev_parents.has(
        entity.index as int,
    )
}

/// Whether one of the first `k` dirty entries moves into or out of the
/// child list of `p`.
spec fn touches_prefix(w0: World, d: Seq<u32>, k: int, p: int) -> bool {
    exists|x: int|
        #[trigger] in_prefix(d, k, x) && w0.parents.has(x) && (w0.parent_index(x) == Some(p)
            || w0.prev_index(x) == Some(p))
}

/// The contents of the stored child list of `p`.
spec fn cview(w: World, p: int) -> Seq<Entity> {
    small_vec_view(w.children.spec_get(p).unwrap())
}

/// Entries of the staged list keyed `key` are dirty entities whose
/// current parent is `key`.
spec fn pending_entry_ok(w0: World, d: Seq<u32>, k: int, key: u32, x: Entity) -> bool {
    in_prefix(d, k, x.index as int) && w0.parents.spec_get(x.index as int) == Some(
        Parent(Entity { index: key }),
    )
}

/// Before any dirty entry is taken, every staged list is empty.
proof fn lemma_fresh_list_prefix_zero(w0: World, d: Seq<u32>)
    ensures
        forall|p: int| #[trigger] fresh_list_prefix(w0, d, 0, p).len() == 0,
{
    assert forall|p: int| #[trigger] fresh_list_prefix(w0, d, 0, p).len() == 0 by {
        reveal(Seq::filter);
        assert(d.take(0) =~= Seq::<u32>::empty());
    }
}

/// Taking one more dirty entry extends exactly the staged list of its
/// current parent, when its cache does not already name that parent.
proof fn lemma_fresh_list_prefix_step(w0: World, d: Seq<u32>, k: int)
    requires
        0 <= k < d.len(),
    ensures
        forall|p: int|
            (w0.parent_index(d[k] as int) == Some(p) && w0.prev_index(d[k] as int) != Some(p))
                ==> #[trigger] fresh_list_prefix(w0, d, k + 1, p) == fresh_list_prefix(w0, d, k, p).push(
                Entity { index: d[k] },
            ),
        forall|p: int|
            !(w0.parent_index(d[k] as int) == Some(p) && w0.prev_index(d[k] as int) != Some(p))
                ==> #[trigger] fresh_list_prefix(w0, d, k + 1, p) == fresh_list_prefix(w0, d, k, p),
{
    assert forall|p: int| true implies ((w0.parent_index(d[k] as int) == Some(p)
        && w0.prev_index(d[k] as int) != Some(p)) ==> #[trigger] fresh_list_prefix(w0, d, k + 1, p)
        == fresh_list_prefix(w0, d, k, p).push(Entity { index: d[k] })) && (!(w0.parent_index(
        d[k] as int,
    ) == Some(p) && w0.prev_index(d[k] as int) != Some(p)) ==> fresh_list_prefix(w0, d, k + 1, p)
        == fresh_list_prefix(w0, d, k, p)) by {
        reveal(Seq::filter);
        assert(d.take(k + 1).drop_last() =~= d.take(k));
        assert(d.take(k + 1).last() == d[k]);
        if w0.parent_index(d[k] as int) == Some(p) && w0.prev_index(d[k] as int) != Some(p) {
            assert(fresh_list_prefix(w0, d, k + 1, p) =~= fresh_list_prefix(w0, d, k, p).push(
                Entity { index: d[k] },
            ));
        } else {
            assert(fresh_list_prefix(w0, d, k + 1, p) =~= fresh_list_prefix(w0, d, k, p));
        }
    }
}

/// `x` is recorded as a child of `p`, either in the stored list or in a
/// staged one.
spec fn recorded(w: World, pend: Seq<(u32, Children)>, p: int, x: int) -> bool {
    if w.children.has(p) {
        cview(w, p).contains(Entity { index: x as u32 })
    } else {
        exists|i: int|
            0 <= i < pend.len() && (#[trigger] pend[i]).0 as int == p && small_vec_view(
                pend[i].1,
            ).contains(Entity { index: x as u32 })
    }
}

/// The shape of the whole queue a maintenance pass leaves behind: the
/// cleanup removals, then the cache insertions, then the staged lists.
spec fn folded_ops_regions(
    w0: World,
    wm: World,
    wfin: World,
    d: Seq<u32>,
    cl_ops: Seq<LazyOp>,
    pv0: Seq<(u32, Children)>,
) -> bool {
    let ops = wfin.lazy@;
    let cl = cl_ops.len() as int;
    let tl = wm.lazy@.len() as int;
    let ll = d.len() as int;
    &&& cl <= tl
    &&& ops.len() == tl + pv0.len()
    &&& forall|j: int| 0 <= j < cl ==> cleanup_op_ok(w0, #[trigger] ops[j])
    &&& forall|j: int| cl <= j < tl ==> prev_insert_op_ok(w0, d, ll, #[trigger] ops[j])
    &&& forall|j1: int, j2: int|
        0 <= j1 < j2 < cl ==> (#[trigger] ops[j1])->RemovePreviousParent_entity.index
            < (#[trigger] ops[j2])->RemovePreviousParent_entity.index
    &&& forall|j1: int, j2: int|
        cl <= j1 < j2 < tl ==> (#[trigger] ops[j1])->InsertPreviousParent_entity
            != (#[trigger] ops[j2])->InsertPreviousParent_entity
    &&& forall|j: int|
        tl <= j < ops.len() ==> #[trigger] ops[j] == (LazyOp::InsertChildren {
            entity: Entity { index: pv0[pv0.len() - 1 - (j - tl)].0 },
            list: pv0[pv0.len() - 1 - (j - tl)].1,
        })
}

/// The index of the staged list keyed `p`, if one exists.
spec fn pending_key_at(pv0: Seq<(u32, Children)>, p: int) -> Option<int> {
    if exists|i: int| 0 <= i < pv0.len() && (#[trigger] pv0[i]).0 as int == p {
        Some(choose|i: int| 0 <= i < pv0.len() && (#[trigger] pv0[i]).0 as int == p)
    } else {
        None
    }
}

/// What the folded queue makes of the child list of `p`: the staged list
/// if one was queued for `p`, the stored list otherwise.
spec fn children_case_holds(
    w0: World,
    wm: World,
    wfin: World,
    d: Seq<u32>,
    cl_ops: Seq<LazyOp>,
    pv0: Seq<(u32, Children)>,
    p: int,
) -> bool {
    let f = wfin.folded();
    match pending_key_at(pv0, p) {
        Some(i) => 0 <= i < pv0.len() && pv0[i].0 as int == p && f.children.dom().contains(p)
            && f.children[p] == small_vec_view(pv0[i].1),
        None => f.children.dom().contains(p) == wm.children.has(p) && (wm.children.has(p)
            ==> f.children[p] == cview(wm, p)),
    }
}

/// Resolves the folded cache entry of one entity from the queue regions.
proof fn prev_case(
    w0: World,
    wm: World,
    wfin: World,
    d: Seq<u32>,
    cl_ops: Seq<LazyOp>,
    pv0: Seq<(u32, Children)>,
    e: int,
)
    requires
        folded_ops_regions(w0, wm, wfin, d, cl_ops, pv0),
        forall|k: int| 0 <= k < d.len() ==> #[trigger] d[k] < w0.entity_count,
        forall|x: int|
            0 <= x < w0.entity_count && w0.prev_parents.has(x) && !w0.parents.has(x)
                ==> exists|j: int|
                    0 <= j < cl_ops.len()
                        && (#[trigger] wfin.lazy@[j])->RemovePreviousParent_entity.index as int
                            == x,
        forall|x: int|
            #[trigger] in_prefix(d, d.len() as int, x) && w0.parents.has(x)
                && !w0.prev_parents.has(x) ==> exists|j: int|
                cl_ops.len() <= j < wm.lazy@.len()
                    && (#[trigger] wfin.lazy@[j])->InsertPreviousParent_entity.index as int == x,
        forall|x: int|
            prev_written(w0, d, d.len() as int, x) ==> #[trigger] wm.prev_parents.spec_get(x)
                == Some(PreviousParent(w0.parents.spec_get(x).unwrap().0)),
        forall|x: int|
            !prev_written(w0, d, d.len() as int, x) ==> #[trigger] wm.prev_parents.spec_get(x)
                == w0.prev_parents.spec_get(x),
        wfin.prev_parents == wm.prev_parents,
    ensures
        ({
            let f = wfin.folded();
            let m0 = w0.model();
            let n = w0.entity_count as int;
            let ll = d.len() as int;
            &&& (0 <= e < n ==> f.prev.dom().contains(e) == (if w0.parent_index(e) is None {
                false
            } else if in_prefix(d, ll, e) {
                true
            } else {
                m0.prev.dom().contains(e)
            }))
            &&& (0 <= e < n && f.prev.dom().contains(e) ==> f.prev[e] == (if in_prefix(
                d,
                ll,
                e,
            ) {
                w0.parent_index(e).unwrap()
            } else {
                m0.prev[e]
            }))
            &&& (!(0 <= e < n) ==> (f.prev.dom().contains(e) == m0.prev.dom().contains(e) && (
            m0.prev.dom().contains(e) ==> f.prev[e] == m0.prev[e])))
        }),
{
    let n = w0.entity_count as int;
    let ops = wfin.lazy@;
    let cl = cl_ops.len() as int;
    let tl = wm.lazy@.len() as int;
    let ll = d.len() as int;
    let mf = wfin.model();
    let f = wfin.folded();
    assert(mf.prev.dom().contains(e) == wfin.prev_parents.has(e));
    if 0 <= e < n && w0.parents.has(e) && in_prefix(d, ll, e) && !w0.prev_parents.has(e) {
        // staged insertion decides the entry
        let j1 = choose|j: int|
            cl <= j < tl && (#[trigger] ops[j])->InsertPreviousParent_entity.index as int == e;
        assert(prev_insert_op_ok(w0, d, ll, ops[j1]));
        assert(prev_op_for(ops[j1], e));
        assert forall|k: int| j1 < k < ops.len() implies !prev_op_for(#[trigger] ops[k], e) by {
            if k < tl {
                assert((ops[j1])->InsertPreviousParent_entity
                    != (ops[k])->InsertPreviousParent_entity);
            }
        }
        lemma_fold_prev_write(mf, ops, e, j1);
    } else if 0 <= e < n && !w0.parents.has(e) && w0.prev_parents.has(e) {
        // staged removal decides the entry
        let j0 = choose|j: int|
            0 <= j < cl && (#[trigger] ops[j])->RemovePreviousParent_entity.index as int == e;
        assert(cleanup_op_ok(w0, ops[j0]));
        assert(prev_op_for(ops[j0], e));
        assert forall|k: int| j0 < k < ops.len() implies !prev_op_for(#[trigger] ops[k], e) by {
            if k < cl {
                assert((ops[j0])->RemovePreviousParent_entity.index
                    < (ops[k])->RemovePreviousParent_entity.index);
            } else if k < tl {
                assert(prev_insert_op_ok(w0, d, ll, ops[k]));
            }
        }
        lemma_fold_prev_write(mf, ops, e, j0);
    } else {
        // no staged op touches the entry
        assert forall|k: int| 0 <= k < ops.len() implies !prev_op_for(#[trigger] ops[k], e) by {
            if k < cl {
                assert(cleanup_op_ok(w0, ops[k]));
                if (ops[k])->RemovePreviousParent_entity.index as int == e {
                    assert(w0.prev_parents.has(e) && !w0.parents.has(e));
                }
            } else if k < tl {
                assert(prev_insert_op_ok(w0, d, ll, ops[k]));
                if (ops[k])->InsertPreviousParent_entity.index as int == e {
                    assert(in_prefix(d, ll, e) && w0.parents.has(e) && !w0.prev_parents.has(e));
                    if !(0 <= e < n) {
                        let i = choose|i: int| 0 <= i < ll && #[trigger] d[i] as int == e;
                        assert(d[i] < w0.entity_count);
                    }
                }
            }
        }
        lemma_fold_prev_untouched(mf, ops, e);
        if prev_written(w0, d, ll, e) {
            assert(wm.prev_parents.spec_get(e) == Some(
                PreviousParent(w0.parents.spec_get(e).unwrap().0),
            ));
        } else {
            assert(wm.prev_parents.spec_get(e) == w0.prev_parents.spec_get(e));
        }
    }
}

/// Resolves the folded child list of one parent from the queue regions.
proof fn children_case(
    w0: World,
    wm: World,
    wfin: World,
    d: Seq<u32>,
    cl_ops: Seq<LazyOp>,
    pv0: Seq<(u32, Children)>,
    p: int,
)
    requires
        folded_ops_regions(w0, wm, wfin, d, cl_ops, pv0),
        forall|i1: int, i2: int|
            0 <= i1 < i2 < pv0.len() ==> (#[trigger] pv0[i1]).0 != (#[trigger] pv0[i2]).0,
        wfin.children == wm.children,
    ensures
        children_case_holds(w0, wm, wfin, d, cl_ops, pv0, p),
{
    let ops = wfin.lazy@;
    let cl = cl_ops.len() as int;
    let tl = wm.lazy@.len() as int;
    let mf = wfin.model();
    assert(mf.children.dom().contains(p) == wfin.children.has(p));
    match pending_key_at(pv0, p) {
        Some(i) => {
            assert(0 <= i < pv0.len() && pv0[i].0 as int == p);
            let jp = tl + (pv0.len() - 1 - i);
            assert(ops[jp] == (LazyOp::InsertChildren {
                entity: Entity { index: pv0[i].0 },
                list: pv0[i].1,
            }));
            assert(children_op_for(ops[jp], p));
            assert forall|k: int| jp < k < ops.len() implies !children_op_for(
                #[trigger] ops[k],
                p,
            ) by {
                let i2 = pv0.len() - 1 - (k - tl);
                assert(ops[k] == (LazyOp::InsertChildren {
                    entity: Entity { index: pv0[i2].0 },
                    list: pv0[i2].1,
                }));
                assert(0 <= i2 < i);
                assert(pv0[i2].0 != pv0[i].0);
            }
            lemma_fold_children_write(mf, ops, p, jp);
        },
        None => {
            assert forall|k: int| 0 <= k < ops.len() implies !children_op_for(
                #[trigger] ops[k],
                p,
            ) by {
                if k < cl {
                    assert(cleanup_op_ok(w0, ops[k]));
                } else if k < tl {
                    assert(prev_insert_op_ok(w0, d, d.len() as int, ops[k]));
                } else {
                    let i2 = pv0.len() - 1 - (k - tl);
                    assert(ops[k] == (LazyOp::InsertChildren {
                        entity: Entity { index: pv0[i2].0 },
                        list: pv0[i2].1,
                    }));
                    if pv0[i2].0 as int == p {
                        assert(pending_key_at(pv0, p) is Some);
                    }
                }
            }
            lemma_fold_children_untouched(mf, ops, p);
        },
    }
}

/// Ties the states a maintenance pass walks through — `w0` at entry,
/// `wr` after the cleanup staging and the event drain, `wm` after the
/// dirty entities were reconciled with staged lists `pv0`, `wfin` after
/// the staged lists were queued — to `maintenance_spec`.
#[verifier::rlimit(100)]
proof fn finish_maintenance(
    w0: World,
    wr: World,
    wm: World,
    wfin: World,
    r: ReaderId,
    d: Seq<u32>,
    cl_ops: Seq<LazyOp>,
    pv0: Seq<(u32, Children)>,
)
    requires
        w0.wf(),
        w0.lazy@ == Seq::<LazyOp>::empty(),
        0 <= r.id < w0.parents.reader_count(),
        // after cleanup staging and drain
        wr.entity_count == w0.entity_count,
        wr.prev_parents == w0.prev_parents,
        wr.children == w0.children,
        wr.lazy@ == cl_ops,
        forall|x: int| #[trigger] wr.parents.spec_get(x) == w0.parents.spec_get(x),
        wr.parents.log() == w0.parents.log(),
        wr.parents.reader_count() == w0.parents.reader_count(),
        wr.parents.cursor(r) == w0.parents.log().len(),
        forall|q: ReaderId|
            0 <= q.id < w0.parents.reader_count() && q.id != r.id
                ==> #[trigger] wr.parents.cursor(q) == w0.parents.cursor(q),
        forall|j: int| 0 <= j < cl_ops.len() ==> cleanup_op_ok(w0, #[trigger] cl_ops[j]),
        forall|j1: int, j2: int|
            0 <= j1 < j2 < cl_ops.len()
                ==> (#[trigger] cl_ops[j1])->RemovePreviousParent_entity.index
                    < (#[trigger] cl_ops[j2])->RemovePreviousParent_entity.index,
        forall|e: int|
            0 <= e < w0.entity_count && w0.prev_parents.has(e) && !w0.parents.has(e)
                ==> exists|j: int|
                    0 <= j < cl_ops.len()
                        && (#[trigger] cl_ops[j])->RemovePreviousParent_entity.index as int == e,
        (forall|e: int|
            0 <= e < w0.entity_count
                ==> !(#[trigger] w0.prev_parents.has(e) && !w0.parents.has(e))) ==> wr.lazy
            == w0.lazy,
        // the dirty list
        forall|k: int| 0 <= k < d.len() ==> #[trigger] d[k] < w0.entity_count,
        forall|k1: int, k2: int| 0 <= k1 < k2 < d.len() ==> #[trigger] d[k1] != #[trigger] d[k2],
        forall|k: int|
            0 <= k < d.len() ==> dirty_of(w0.parents.pending(r)).contains(#[trigger] d[k] as int),
        forall|x: int|
            #[trigger] dirty_of(w0.parents.pending(r)).contains(x)
                ==> exists|k: int| 0 <= k < d.len() && #[trigger] d[k] as int == x,
        // after the dirty entities were reconciled
        d.len() == 0 ==> wm == wr && pv0.len() == 0,
        wm.entity_count == w0.entity_count,
        wm.locals == w0.locals,
        wm.globals == w0.globals,
        wm.parents == wr.parents,
        wm.wf(),
        forall|x: int|
            prev_written(w0, d, d.len() as int, x) ==> #[trigger] wm.prev_parents.spec_get(x)
                == Some(PreviousParent(w0.parents.spec_get(x).unwrap().0)),
        forall|x: int|
            !prev_written(w0, d, d.len() as int, x) ==> #[trigger] wm.prev_parents.spec_get(x)
                == w0.prev_parents.spec_get(x),
        wm.lazy@.len() >= cl_ops.len(),
        wm.lazy@.subrange(0, cl_ops.len() as int) == cl_ops,
        forall|j: int|
            cl_ops.len() <= j < wm.lazy@.len()
                ==> prev_insert_op_ok(w0, d, d.len() as int, #[trigger] wm.lazy@[j]),
        forall|j1: int, j2: int|
            cl_ops.len() <= j1 < j2 < wm.lazy@.len()
                ==> (#[trigger] wm.lazy@[j1])->InsertPreviousParent_entity
                    != (#[trigger] wm.lazy@[j2])->InsertPreviousParent_entity,
        forall|x: int|
            #[trigger] in_prefix(d, d.len() as int, x) && w0.parents.has(x)
                && !w0.prev_parents.has(x) ==> exists|j: int|
                cl_ops.len() <= j < wm.lazy@.len()
                    && (#[trigger] wm.lazy@[j])->InsertPreviousParent_entity.index as int == x,
        forall|p: int| #[trigger] wm.children.has(p) == w0.children.has(p),
        forall|p: int|
            !touches_prefix(w0, d, d.len() as int, p) ==> #[trigger] wm.children.spec_get(p)
                == w0.children.spec_get(p),
        forall|i1: int, i2: int|
            0 <= i1 < i2 < pv0.len() ==> (#[trigger] pv0[i1]).0 != (#[trigger] pv0[i2]).0,
        forall|i: int| 0 <= i < pv0.len() ==> !wm.children.has((#[trigger] pv0[i]).0 as int),
        forall|i: int| 0 <= i < pv0.len() ==> small_vec_view((#[trigger] pv0[i]).1).len() > 0,
        forall|i: int, t: int|
            #![trigger small_vec_view(pv0[i].1)[t]]
            0 <= i < pv0.len() && 0 <= t < small_vec_view(pv0[i].1).len() ==> pending_entry_ok(
                w0,
                d,
                d.len() as int,
                pv0[i].0,
                small_vec_view(pv0[i].1)[t],
            ),
        forall|i: int|
            0 <= i < pv0.len() ==> crate::children::seq_dup_free(
                small_vec_view((#[trigger] pv0[i]).1),
            ),
        d == dirty_seq(w0.parents.pending(r)),
        forall|i: int|
            0 <= i < pv0.len() ==> small_vec_view((#[trigger] pv0[i]).1) == fresh_list_prefix(
                w0,
                d,
                d.len() as int,
                pv0[i].0 as int,
            ),
        forall|p: int|
            #![trigger fresh_list_prefix(w0, d, d.len() as int, p)]
            !w0.children.has(p) && fresh_list_prefix(w0, d, d.len() as int, p).len() > 0
                ==> exists|i: int| 0 <= i < pv0.len() && (#[trigger] pv0[i]).0 as int == p,
        hier_linked(w0.model(), w0.entity_count as int) && children_dup_free(w0.model().children)
            ==> forall|x: int|
            #[trigger] in_prefix(d, d.len() as int, x) && w0.parents.has(x) ==> recorded(
                wm,
                pv0,
                w0.parent_index(x).unwrap(),
                x,
            ),
        hier_linked(w0.model(), w0.entity_count as int) && children_dup_free(w0.model().children)
            ==> forall|x: int, q: int|
            #![trigger in_prefix(d, d.len() as int, x), cview(wm, q)]
            in_prefix(d, d.len() as int, x) && w0.parents.has(x) && q != w0.parent_index(
                x,
            ).unwrap() && wm.children.has(q) ==> !cview(wm, q).contains(Entity { index: x as u32 }),
        forall|q: int, x: int|
            #![trigger cview(wm, q).contains(Entity { index: x as u32 })]
            0 <= x < w0.entity_count && (!in_prefix(d, d.len() as int, x) || w0.parents.spec_get(
                x,
            ) is None) && wm.children.has(q) ==> cview(wm, q).contains(Entity { index: x as u32 })
                == cview(w0, q).contains(Entity { index: x as u32 }),
        children_dup_free(w0.model().children) ==> forall|q: int| #[trigger] wm.children.has(q)
            ==> crate::children::seq_dup_free(cview(wm, q)),
        // after the staged lists were queued
        pv0.len() == 0 ==> wfin == wm,
        wfin.entity_count == wm.entity_count,
        wfin.locals == wm.locals,
        wfin.globals == wm.globals,
        wfin.parents == wm.parents,
        wfin.prev_parents == wm.prev_parents,
        wfin.children == wm.children,
        wfin.wf(),
        wfin.lazy@.len() == wm.lazy@.len() + pv0.len(),
        wfin.lazy@.subrange(0, wm.lazy@.len() as int) == wm.lazy@,
        forall|t: int|
            0 <= t < pv0.len() ==> #[trigger] wfin.lazy@[wm.lazy@.len() + t]
                == (LazyOp::InsertChildren {
                entity: Entity { index: pv0[pv0.len() - 1 - t].0 },
                list: pv0[pv0.len() - 1 - t].1,
            }),
    ensures
        maintenance_spec(w0, wfin, r),
{
    let n = w0.entity_count as int;
    let pend = w0.parents.pending(r);
    let dset = dirty_of(pend);
    let m0 = w0.model();
    let mf = wfin.model();
    let ops = wfin.lazy@;
    let cl = cl_ops.len() as int;
    let tl = wm.lazy@.len() as int;
    let ll = d.len() as int;
    let f = wfin.folded();

    // the dirty set and the dirty list name the same entities
    assert forall|x: int| #[trigger] dset.contains(x) implies 0 <= x < n by {
        let k = choose|k: int|
            0 <= k < pend.len() && ((#[trigger] pend[k]).kind != EventKind::Removed)
                && pend[k].entity as int == x;
        assert(pend[k] == w0.parents.log()[w0.parents.cursor(r) + k]);
    }
    assert forall|x: int| #[trigger] in_prefix(d, ll, x) == dset.contains(x) by {
        if in_prefix(d, ll, x) {
            let i = choose|i: int| 0 <= i < ll && #[trigger] d[i] as int == x;
            assert(dset.contains(d[i] as int));
        }
        if dset.contains(x) {
            let k = choose|k: int| 0 <= k < d.len() && #[trigger] d[k] as int == x;
            assert(in_prefix(d, ll, x));
        }
    }

    // the shape of each region of the final queue
    assert forall|j: int| 0 <= j < cl implies cleanup_op_ok(w0, #[trigger] ops[j]) by {
        assert(ops.subrange(0, tl)[j] == ops[j]);
        assert(wm.lazy@.subrange(0, cl)[j] == wm.lazy@[j]);
    }
    assert forall|j: int| cl <= j < tl implies prev_insert_op_ok(
        w0,
        d,
        ll,
        #[trigger] ops[j],
    ) by {
        assert(ops.subrange(0, tl)[j] == ops[j]);
    }
    assert forall|j1: int, j2: int| 0 <= j1 < j2 < cl implies (
    #[trigger] ops[j1])->RemovePreviousParent_entity.index
        < (#[trigger] ops[j2])->RemovePreviousParent_entity.index by {
        assert(ops.subrange(0, tl)[j1] == ops[j1]);
        assert(ops.subrange(0, tl)[j2] == ops[j2]);
        assert(wm.lazy@.subrange(0, cl)[j1] == wm.lazy@[j1]);
        assert(wm.lazy@.subrange(0, cl)[j2] == wm.lazy@[j2]);
    }
    assert forall|j1: int, j2: int| cl <= j1 < j2 < tl implies (
    #[trigger] ops[j1])->InsertPreviousParent_entity
        != (#[trigger] ops[j2])->InsertPreviousParent_entity by {
        assert(ops.subrange(0, tl)[j1] == ops[j1]);
        assert(ops.subrange(0, tl)[j2] == ops[j2]);
    }
    assert forall|j: int| tl <= j < ops.len() implies #[trigger] ops[j]
        == (LazyOp::InsertChildren {
        entity: Entity { index: pv0[pv0.len() - 1 - (j - tl)].0 },
        list: pv0[pv0.len() - 1 - (j - tl)].1,
    }) by {
        assert(ops[tl + (j - tl)] == (LazyOp::InsertChildren {
            entity: Entity { index: pv0[pv0.len() - 1 - (j - tl)].0 },
            list: pv0[pv0.len() - 1 - (j - tl)].1,
        }));
    }

    assert(folded_ops_regions(w0, wm, wfin, d, cl_ops, pv0));

    // the frame clauses
    assert(wfin.parents.pending(r) =~= Seq::<StorageEvent>::empty());

    // the cache: which op, if any, decides each entity
    assert forall|e: int|
        0 <= e < n implies #[trigger] f.prev.dom().contains(e) == (if w0.parent_index(
        e,
    ) is None {
        false
    } else if dset.contains(e) {
        true
    } else {
        m0.prev.dom().contains(e)
    }) && (f.prev.dom().contains(e) ==> f.prev[e] == (if dset.contains(e) {
        w0.parent_index(e).unwrap()
    } else {
        m0.prev[e]
    })) by {
        prev_case(w0, wm, wfin, d, cl_ops, pv0, e);
    }
    assert forall|e: int|
        !(0 <= e < n) implies (#[trigger] f.prev.dom().contains(e) == m0.prev.dom().contains(e)
            && (m0.prev.dom().contains(e) ==> f.prev[e] == m0.prev[e])) by {
        prev_case(w0, wm, wfin, d, cl_ops, pv0, e);
    }

    // the child lists: which op, if any, decides each parent
    assert forall|p: int| true implies children_case_holds(w0, wm, wfin, d, cl_ops, pv0, p) by {
        children_case(w0, wm, wfin, d, cl_ops, pv0, p);
    }

    // assemble the list clauses of the contract
    assert forall|p: int|
        !touches(w0, dset, p) implies ((#[trigger] f.children.dom().contains(p))
            == m0.children.dom().contains(p) && (m0.children.dom().contains(p) ==> f.children[p]
            == m0.children[p])) by {
        assert(children_case_holds(w0, wm, wfin, d, cl_ops, pv0, p));
        if touches_prefix(w0, d, ll, p) {
            let x = choose|x: int|
                #[trigger] in_prefix(d, ll, x) && w0.parents.has(x) && (w0.parent_index(x)
                    == Some(p) || w0.prev_index(x) == Some(p));
            assert(dset.contains(x));
            assert(touches(w0, dset, p));
        }
        if pending_key_at(pv0, p) is Some {
            let i = pending_key_at(pv0, p).unwrap();
            assert(small_vec_view(pv0[i].1).len() > 0);
            let x = small_vec_view(pv0[i].1)[0];
            assert(pending_entry_ok(w0, d, ll, pv0[i].0, x));
            assert(dset.contains(x.index as int));
            assert(touches(w0, dset, p));
        }
    }
    assert forall|p: int|
        #[trigger] m0.children.dom().contains(p) implies f.children.dom().contains(p) by {
        assert(children_case_holds(w0, wm, wfin, d, cl_ops, pv0, p));
    }
    assert forall|p: int|
        !m0.children.dom().contains(p) implies ((#[trigger] f.children.dom().contains(p)) == (
        fresh_list_spec(w0, pend, p).len() > 0) && (f.children.dom().contains(p)
            ==> f.children[p] == fresh_list_spec(w0, pend, p))) by {
        assert(children_case_holds(w0, wm, wfin, d, cl_ops, pv0, p));
        assert(!w0.children.has(p));
        assert(fresh_list_spec(w0, pend, p) == fresh_list_prefix(w0, d, ll, p));
        if pending_key_at(pv0, p) is Some {
            let i = pending_key_at(pv0, p).unwrap();
            assert(f.children[p] == small_vec_view(pv0[i].1));
            assert(small_vec_view(pv0[i].1) == fresh_list_prefix(w0, d, ll, p));
            assert(small_vec_view(pv0[i].1).len() > 0);
        } else {
            assert(f.children.dom().contains(p) == wm.children.has(p));
            assert(wm.children.has(p) == w0.children.has(p));
            if fresh_list_prefix(w0, d, ll, p).len() > 0 {
                let i0 = choose|i0: int|
                    0 <= i0 < pv0.len() && (#[trigger] pv0[i0]).0 as int == p;
                assert(pending_key_at(pv0, p) is Some);
            }
        }
    }
    assert forall|q: int, x: int|
        #![trigger f.children[q].contains(Entity { index: x as u32 })]
        0 <= x < n && (!dset.contains(x) || w0.parent_index(x) is None) implies ((
        f.children.dom().contains(q) && f.children[q].contains(Entity { index: x as u32 })) == (
    m0.children.dom().contains(q) && m0.children[q].contains(Entity { index: x as u32 }))) by {
        assert(children_case_holds(w0, wm, wfin, d, cl_ops, pv0, q));
        if pending_key_at(pv0, q) is Some {
            let i = pending_key_at(pv0, q).unwrap();
            assert(f.children[q] == small_vec_view(pv0[i].1));
            if f.children[q].contains(Entity { index: x as u32 }) {
                let t = choose|t: int|
                    0 <= t < small_vec_view(pv0[i].1).len() && small_vec_view(pv0[i].1)[t]
                        == (Entity { index: x as u32 });
                assert(pending_entry_ok(w0, d, ll, pv0[i].0, Entity { index: x as u32 }));
                assert(in_prefix(d, ll, x));
                assert(w0.parents.spec_get(x) is Some);
            }
            assert(!wm.children.has(q));
            assert(!m0.children.dom().contains(q));
        } else {
            assert(f.children.dom().contains(q) == wm.children.has(q));
            if wm.children.has(q) {
                assert(f.children[q] == cview(wm, q));
                assert(cview(wm, q).contains(Entity { index: x as u32 }) == cview(
                    w0,
                    q,
                ).contains(Entity { index: x as u32 }));
            }
        }
    }
    if hier_linked(m0, n) && children_dup_free(m0.children) {
        assert forall|e: int|
            #[trigger] dset.contains(e) && w0.parent_index(e) is Some implies f.children.dom()
                .contains(w0.parent_index(e).unwrap()) && f.children[w0.parent_index(
            e,
        ).unwrap()].contains(Entity { index: e as u32 }) by {
            let p = w0.parent_index(e).unwrap();
            assert(in_prefix(d, ll, e));
            assert(recorded(wm, pv0, p, e));
            assert(children_case_holds(w0, wm, wfin, d, cl_ops, pv0, p));
            if wm.children.has(p) {
                assert(pending_key_at(pv0, p) is None) by {
                    if pending_key_at(pv0, p) is Some {
                        let i = pending_key_at(pv0, p).unwrap();
                        assert(!wm.children.has(pv0[i].0 as int));
                    }
                }
                assert(f.children[p] == cview(wm, p));
            } else {
                let i = choose|i: int|
                    0 <= i < pv0.len() && (#[trigger] pv0[i]).0 as int == p && small_vec_view(
                        pv0[i].1,
                    ).contains(Entity { index: e as u32 });
                assert(pending_key_at(pv0, p) is Some);
                let i2 = pending_key_at(pv0, p).unwrap();
                assert(i2 == i) by {
                    if i2 != i {
                        assert(pv0[i2].0 != pv0[i].0);
                    }
                }
                assert(f.children[p] == small_vec_view(pv0[i].1));
            }
        }
        assert forall|e: int, q: int|
            #![trigger dset.contains(e), f.children[q]]
            dset.contains(e) && w0.parent_index(e) is Some && q != w0.parent_index(e).unwrap()
                && f.children.dom().contains(q) implies !f.children[q].contains(
            Entity { index: e as u32 },
        ) by {
            let p = w0.parent_index(e).unwrap();
            assert(in_prefix(d, ll, e));
            assert(children_case_holds(w0, wm, wfin, d, cl_ops, pv0, q));
            if pending_key_at(pv0, q) is Some {
                let i = pending_key_at(pv0, q).unwrap();
                assert(f.children[q] == small_vec_view(pv0[i].1));
                if f.children[q].contains(Entity { index: e as u32 }) {
                    let t = choose|t: int|
                        0 <= t < small_vec_view(pv0[i].1).len() && small_vec_view(pv0[i].1)[t]
                            == (Entity { index: e as u32 });
                    assert(pending_entry_ok(w0, d, ll, pv0[i].0, Entity { index: e as u32 }));
                    assert(w0.parents.spec_get(e) == Some(
                        Parent(Entity { index: pv0[i].0 }),
                    ));
                }
            } else {
                assert(f.children.dom().contains(q) == wm.children.has(q));
                assert(f.children[q] == cview(wm, q));
                assert(!cview(wm, q).contains(Entity { index: e as u32 }));
            }
        }
    }
    if children_dup_free(m0.children) {
        assert forall|p: int| #[trigger] f.children.dom().contains(p)
            implies crate::children::seq_dup_free(f.children[p]) by {
            assert(children_case_holds(w0, wm, wfin, d, cl_ops, pv0, p));
            if pending_key_at(pv0, p) is Some {
                let i = pending_key_at(pv0, p).unwrap();
                assert(f.children[p] == small_vec_view(pv0[i].1));
            } else {
                assert(f.children[p] == cview(wm, p));
            }
        }
    }

    // a pass with nothing to do writes nothing at all
    if all_removed(pend) && (forall|e: int|
        0 <= e < n ==> !(#[trigger] w0.prev_parents.has(e) && !w0.parents.has(e))) {
        assert(d.len() == 0) by {
            if d.len() > 0 {
                assert(dset.contains(d[0] as int));
                let k = choose|k: int|
                    0 <= k < pend.len() && ((#[trigger] pend[k]).kind != EventKind::Removed)
                        && pend[k].entity as int == d[0] as int;
            }
        }
        assert(wfin == wm && wm == wr);
        assert(wr.lazy == w0.lazy);
    }
}

impl HierarchySystem {
    /// One maintenance pass: reconcile `Children` and `PreviousParent`
    /// with the `Parent` changes delivered since the last pass, staging
    /// through the queue what cannot be written while iterating. The
    /// guarantees are stated by `maintenance_spec`.
    #[verifier::rlimit(100)]
    #[verifier::loop_isolation(false)]
    pub fn run(&mut self, w: &mut World)
        requires
            old(w).wf(),
            old(w).lazy@ == Seq::<LazyOp>::empty(),
            old(self).reader_id is Some,
            old(self).reader_id.unwrap().id < old(w).parents.reader_count(),
        ensures
            *final(self) == *old(self),
            maintenance_spec(*old(w), *final(w), old(self).reader_id.unwrap()),
    {
        let r = self.reader_id.unwrap();
        let ghost w0 = *old(w);
        let ghost n_int = w0.entity_count as int;
        let ghost m0 = w0.model();
        let ghost pend = w0.parents.pending(r);
        let ghost dset = dirty_of(pend);
        let ghost sharp = hier_linked(m0, n_int) && children_dup_free(m0.children);
        let ghost dup0 = children_dup_free(m0.children);

        stage_cleanup(w);
        let ghost cl_ops = w.lazy@;
        let cl_len = w.lazy.len();

        let evs = w.parents.read(r);
        proof {
            assert forall|k: int| 0 <= k < evs@.len() implies (#[trigger] evs@[k]).entity
                < w.entity_count by {
                assert(evs@[k] == w0.parents.log()[w0.parents.cursor(r) + k]);
            }
        }
        let dirty = collect_dirty(w.entity_count, &evs);
        let ghost wr = *w;
        proof {
            if dup0 {
                assert forall|q: int| #[trigger] w.children.has(q)
                    implies crate::children::seq_dup_free(cview(*w, q)) by {
                    assert(m0.children.dom().contains(q));
                    assert(m0.children[q] == cview(w0, q));
                }
            }
            lemma_fresh_list_prefix_zero(w0, dirty@);
        }

        let mut pending: Vec<(u32, Children)> = Vec::new();
        let mut k: usize = 0;
        while k < dirty.len()
            invariant
                0 <= k <= dirty@.len(),
                w.entity_count == w0.entity_count,
                w.locals == w0.locals,
                w.globals == w0.globals,
                w.parents == wr.parents,
                w.wf(),
                k == 0 ==> *w == wr && pending@.len() == 0,
                // the cache slots
                forall|x: int|
                    prev_written(w0, dirty@, k as int, x)
                        ==> #[trigger] w.prev_parents.spec_get(x) == Some(
                            PreviousParent(w0.parents.spec_get(x).unwrap().0),
                        ),
                forall|x: int|
                    !prev_written(w0, dirty@, k as int, x)
                        ==> #[trigger] w.prev_parents.spec_get(x) == w0.prev_parents.spec_get(x),
                // the queue: the cleanup prefix, then one cache insertion
                // per fresh dirty entity
                w.lazy@.len() >= cl_ops.len(),
                w.lazy@.subrange(0, cl_ops.len() as int) == cl_ops,
                forall|j: int|
                    cl_ops.len() <= j < w.lazy@.len()
                        ==> prev_insert_op_ok(w0, dirty@, k as int, #[trigger] w.lazy@[j]),
                forall|j1: int, j2: int|
                    cl_ops.len() <= j1 < j2 < w.lazy@.len()
                        ==> (#[trigger] w.lazy@[j1])->InsertPreviousParent_entity
                            != (#[trigger] w.lazy@[j2])->InsertPreviousParent_entity,
                forall|x: int|
                    #[trigger] in_prefix(dirty@, k as int, x) && w0.parents.has(x)
                        && !w0.prev_parents.has(x) ==> exists|j: int|
                        cl_ops.len() <= j < w.lazy@.len()
                            && (#[trigger] w.lazy@[j])->InsertPreviousParent_entity.index as int
                                == x,
                // the stored child lists
                forall|p: int| #[trigger] w.children.has(p) == w0.children.has(p),
                forall|p: int|
                    !touches_prefix(w0, dirty@, k as int, p)
                        ==> #[trigger] w.children.spec_get(p) == w0.children.spec_get(p),
                // the staged child lists
                forall|i1: int, i2: int|
                    0 <= i1 < i2 < pending@.len()
                        ==> (#[trigger] pending@[i1]).0 != (#[trigger] pending@[i2]).0,
                forall|i: int|
                    0 <= i < pending@.len() ==> !w.children.has((#[trigger] pending@[i]).0 as int),
                forall|i: int|
                    0 <= i < pending@.len() ==> small_vec_view((#[trigger] pending@[i]).1).len()
                        > 0,
                forall|i: int, t: int|
                    #![trigger small_vec_view(pending@[i].1)[t]]
                    0 <= i < pending@.len() && 0 <= t < small_vec_view(pending@[i].1).len()
                        ==> pending_entry_ok(
                        w0,
                        dirty@,
                        k as int,
                        pending@[i].0,
                        small_vec_view(pending@[i].1)[t],
                    ),
                forall|i: int|
                    0 <= i < pending@.len() ==> crate::children::seq_dup_free(
                        small_vec_view((#[trigger] pending@[i]).1),
                    ),
                forall|i: int|
                    0 <= i < pending@.len() ==> small_vec_view((#[trigger] pending@[i]).1)
                        == fresh_list_prefix(w0, dirty@, k as int, pending@[i].0 as int),
                forall|p: int|
                    #![trigger fresh_list_prefix(w0, dirty@, k as int, p)]
                    !w0.children.has(p) && fresh_list_prefix(w0, dirty@, k as int, p).len() > 0
                        ==> exists|i: int|
                        0 <= i < pending@.len() && (#[trigger] pending@[i]).0 as int == p,
                // membership
                sharp ==> forall|x: int|
                    #[trigger] in_prefix(dirty@, k as int, x) && w0.parents.has(x) ==> recorded(
                        *w,
                        pending@,
                        w0.parent_index(x).unwrap(),
                        x,
                    ),
                sharp ==> forall|x: int, q: int|
                    #![trigger in_prefix(dirty@, k as int, x), cview(*w, q)]
                    in_prefix(dirty@, k as int, x) && w0.parents.has(x) && q != w0.parent_index(
                        x,
                    ).unwrap() && w.children.has(q) ==> !cview(*w, q).contains(
                        Entity { index: x as u32 },
                    ),
                forall|q: int, x: int|
                    #![trigger cview(*w, q).contains(Entity { index: x as u32 })]
                    0 <= x < w0.entity_count && (!in_prefix(dirty@, k as int, x)
                        || w0.parents.spec_get(x) is None) && w.children.has(q) ==> cview(
                        *w,
                        q,
                    ).contains(Entity { index: x as u32 }) == cview(w0, q).contains(
                        Entity { index: x as u32 },
                    ),
                dup0 ==> forall|q: int| #[trigger] w.children.has(q)
                    ==> crate::children::seq_dup_free(cview(*w, q)),
            decreases dirty@.len() - k,
        {
            let ghost pre = *w;
            let ghost pre_pending = pending@;
            let ei = dirty[k];
            let ent = Entity { index: ei };
            let ghost ex = ei as int;
            proof {
                lemma_in_prefix_step(dirty@, k as int);
                assert(in_prefix(dirty@, k + 1 as int, ex));
                assert(!in_prefix(dirty@, k as int, ex)) by {
                    if in_prefix(dirty@, k as int, ex) {
                        let i = choose|i: int|
                            0 <= i < k as int && #[trigger] dirty@[i] as int == ex;
                        assert(dirty@[i] != dirty@[k as int]);
                    }
                }
                assert(!prev_written(w0, dirty@, k as int, ex));
            }
            let par_opt: Option<Entity> = match w.parents.get(ei) {
                Some(pp) => Some(pp.0),
                None => None,
            };
            let prev_opt: Option<Entity> = match w.prev_parents.get(ei) {
                Some(qq) => Some(qq.0),
                None => None,
            };
            proof {
                assert(w.parents.spec_get(ex) == w0.parents.spec_get(ex));
                assert(w.prev_parents.spec_get(ex) == w0.prev_parents.spec_get(ex));
            }
            let mut skip = false;
            let ghost mut pend_new: Option<int> = None;
            match par_opt {
                None => {},
                Some(p) => {
                    match prev_opt {
                        Some(q) => {
                            if q.index == p.index {
                                skip = true;
                            } else {
                                let stale: Option<Children> = match w.children.get(q.index) {
                                    Some(list) => Some(list.duplicate()),
                                    None => None,
                                };
                                if let Some(mut l2) = stale {
                                    l2.remove_entity(ent);
                                    w.children.insert(q.index, l2);
                                }
                                w.prev_parents.insert(ei, PreviousParent(p));
                            }
                        },
                        None => {
                            w.lazy.push(
                                LazyOp::InsertPreviousParent { entity: ent, parent: p },
                            );
                        },
                    }
                    if !skip {
                        let target: Option<Children> = match w.children.get(p.index) {
                            Some(list) => Some(list.duplicate()),
                            None => None,
                        };
                        match target {
                            Some(l2) => {
                                proof {
                                    lemma_push_facts(small_vec_view(l2), ent);
                                }
                                if !l2.contains(ent) {
                                    let mut l3 = l2;
                                    l3.push(ent);
                                    w.children.insert(p.index, l3);
                                }
                            },
                            None => {
                                // find the staged list for p, if any
                                let mut idx: usize = 0;
                                let mut pos: usize = pending.len();
                                while idx < pending.len()
                                    invariant
                                        0 <= idx <= pending@.len(),
                                        pos == pending@.len() || (pos < idx
                                            && pending@[pos as int].0 == p.index),
                                        pos == pending@.len() ==> forall|i: int|
                                            0 <= i < idx
                                                ==> (#[trigger] pending@[i]).0 != p.index,
                                    decreases pending@.len() - idx,
                                {
                                    if pending[idx].0 == p.index {
                                        pos = idx;
                                    }
                                    idx = idx + 1;
                                }
                                if pos < pending.len() {
                                    let ghost pos_g = pos as int;
                                    let (key, mut list) = pending.remove(pos);
                                    proof {
                                        lemma_push_facts(small_vec_view(list), ent);
                                        assert(!small_vec_view(list).contains(ent)) by {
                                            if small_vec_view(list).contains(ent) {
                                                let t = choose|t: int|
                                                    0 <= t < small_vec_view(list).len()
                                                        && small_vec_view(list)[t] == ent;
                                                assert(small_vec_view(pre_pending[pos_g].1)[t]
                                                    == ent);
                                            }
                                        }
                                    }
                                    list.push(ent);
                                    pending.push((key, list));
                                    proof {
                                        pend_new = Some(pos_g);
                                    }
                                } else {
                                    let mut list = Children::empty();
                                    list.push(ent);
                                    proof {
                                        lemma_push_facts(Seq::<Entity>::empty(), ent);
                                    }
                                    pending.push((p.index, list));
                                    proof {
                                        pend_new = Some(pre_pending.len() as int);
                                    }
                                }
                            },
                        }
                    }
                },
            }
            proof {
                let kk = k as int;
                let ghost lp = pre.lazy@;
                // how this entity relates to the pre-state books
                assert forall|x: int| #[trigger] in_prefix(dirty@, kk + 1, x) && x != ex
                    implies in_prefix(dirty@, kk, x) by {}
                // the cache slots
                assert forall|x: int| prev_written(w0, dirty@, kk + 1, x)
                    implies #[trigger] w.prev_parents.spec_get(x) == Some(
                        PreviousParent(w0.parents.spec_get(x).unwrap().0),
                    ) by {
                    if x != ex {
                        assert(prev_written(w0, dirty@, kk, x));
                        assert(pre.prev_parents.spec_get(x) == Some(
                            PreviousParent(w0.parents.spec_get(x).unwrap().0),
                        ));
                    }
                }
                assert forall|x: int| !prev_written(w0, dirty@, kk + 1, x)
                    implies #[trigger] w.prev_parents.spec_get(x) == w0.prev_parents.spec_get(
                    x,
                ) by {
                    if x != ex {
                        assert(!prev_written(w0, dirty@, kk, x));
                    }
                }
                // the queue
                assert(w.lazy@.subrange(0, cl_ops.len() as int) =~= cl_ops);
                assert forall|j: int| cl_ops.len() <= j < w.lazy@.len()
                    implies prev_insert_op_ok(w0, dirty@, kk + 1, #[trigger] w.lazy@[j]) by {
                    if j < lp.len() {
                        assert(w.lazy@[j] == lp[j]);
                        assert(prev_insert_op_ok(w0, dirty@, kk, lp[j]));
                    }
                }
                assert forall|j1: int, j2: int|
                    cl_ops.len() <= j1 < j2 < w.lazy@.len()
                    implies (#[trigger] w.lazy@[j1])->InsertPreviousParent_entity
                        != (#[trigger] w.lazy@[j2])->InsertPreviousParent_entity by {
                    if j2 < lp.len() {
                        assert(w.lazy@[j1] == lp[j1]);
                        assert(w.lazy@[j2] == lp[j2]);
                    } else {
                        assert(w.lazy@[j1] == lp[j1]);
                        assert(prev_insert_op_ok(w0, dirty@, kk, lp[j1]));
                        assert(in_prefix(
                            dirty@,
                            kk,
                            (lp[j1])->InsertPreviousParent_entity.index as int,
                        ));
                    }
                }
                assert forall|x: int|
                    #[trigger] in_prefix(dirty@, kk + 1, x) && w0.parents.has(x)
                        && !w0.prev_parents.has(x) implies exists|j: int|
                    cl_ops.len() <= j < w.lazy@.len()
                        && (#[trigger] w.lazy@[j])->InsertPreviousParent_entity.index as int
                            == x by {
                    if x == ex {
                        assert(w.lazy@[w.lazy@.len() - 1]->InsertPreviousParent_entity.index as int
                            == x);
                    } else {
                        assert(in_prefix(dirty@, kk, x));
                        let j = choose|j: int|
                            cl_ops.len() <= j < lp.len()
                                && (#[trigger] lp[j])->InsertPreviousParent_entity.index as int
                                    == x;
                        assert(w.lazy@[j] == lp[j]);
                    }
                }
                // the stored child lists
                assert forall|p2: int| #[trigger] w.children.has(p2) == w0.children.has(p2) by {
                    assert(pre.children.has(p2) == w0.children.has(p2));
                    if pre.children.spec_get(p2) != w.children.spec_get(p2) {
                        assert(w.children.has(p2));
                        assert(pre.children.has(p2));
                    }
                }
                assert forall|p2: int| !touches_prefix(w0, dirty@, kk + 1, p2)
                    implies #[trigger] w.children.spec_get(p2) == w0.children.spec_get(p2) by {
                    assert(!touches_prefix(w0, dirty@, kk, p2)) by {
                        if touches_prefix(w0, dirty@, kk, p2) {
                            let x = choose|x: int|
                                #[trigger] in_prefix(dirty@, kk, x) && w0.parents.has(x) && (
                                w0.parent_index(x) == Some(p2) || w0.prev_index(x) == Some(p2));
                            assert(in_prefix(dirty@, kk + 1, x));
                        }
                    }
                    if par_opt is Some {
                        let pv = par_opt.unwrap();
                        assert(in_prefix(dirty@, kk + 1, ex) && w0.parents.has(ex));
                        assert(w0.parent_index(ex) == Some(pv.index as int));
                        assert(p2 != pv.index as int);
                        if prev_opt is Some {
                            assert(w0.prev_index(ex) == Some(prev_opt.unwrap().index as int));
                            assert(p2 != prev_opt.unwrap().index as int);
                        }
                    }
                }
                // the staged lists
                assert forall|i1: int, i2: int| 0 <= i1 < i2 < pending@.len()
                    implies (#[trigger] pending@[i1]).0 != (#[trigger] pending@[i2]).0 by {
                    if pend_new is Some {
                        let pg = pend_new.unwrap();
                        if pg < pre_pending.len() {
                            let rp = pre_pending.remove(pg);
                            if i2 < rp.len() {
                                assert(pending@[i1] == rp[i1]);
                                assert(pending@[i2] == rp[i2]);
                                assert(rp[i1] == if i1 < pg { pre_pending[i1] } else {
                                    pre_pending[i1 + 1]
                                });
                                assert(rp[i2] == if i2 < pg { pre_pending[i2] } else {
                                    pre_pending[i2 + 1]
                                });
                            } else {
                                assert(pending@[i1] == rp[i1]);
                                assert(rp[i1] == if i1 < pg { pre_pending[i1] } else {
                                    pre_pending[i1 + 1]
                                });
                                assert(pending@[i2].0 == pre_pending[pg].0);
                            }
                        } else {
                            if i2 < pre_pending.len() {
                                assert(pending@[i1] == pre_pending[i1]);
                                assert(pending@[i2] == pre_pending[i2]);
                            } else {
                                assert(pending@[i1] == pre_pending[i1]);
                            }
                        }
                    }
                }
                assert forall|i: int| 0 <= i < pending@.len()
                    implies !w.children.has((#[trigger] pending@[i]).0 as int)
                        && small_vec_view(pending@[i].1).len() > 0
                        && crate::children::seq_dup_free(small_vec_view(pending@[i].1)) by {
                    if pend_new is Some {
                        let pg = pend_new.unwrap();
                        if pg < pre_pending.len() {
                            let rp = pre_pending.remove(pg);
                            if i < rp.len() {
                                assert(pending@[i] == rp[i]);
                                assert(rp[i] == if i < pg { pre_pending[i] } else {
                                    pre_pending[i + 1]
                                });
                            }
                        } else {
                            if i < pre_pending.len() {
                                assert(pending@[i] == pre_pending[i]);
                            }
                        }
                    }
                }
                assert forall|i: int, t: int|
                    0 <= i < pending@.len() && 0 <= t < small_vec_view(pending@[i].1).len()
                    implies pending_entry_ok(
                        w0,
                        dirty@,
                        kk + 1,
                        pending@[i].0,
                        #[trigger] small_vec_view(pending@[i].1)[t],
                    ) by {
                    if pend_new is Some {
                        let pg = pend_new.unwrap();
                        if pg < pre_pending.len() {
                            let rp = pre_pending.remove(pg);
                            if i < rp.len() {
                                assert(pending@[i] == rp[i]);
                                assert(rp[i] == if i < pg { pre_pending[i] } else {
                                    pre_pending[i + 1]
                                });
                                assert(pending_entry_ok(
                                    w0,
                                    dirty@,
                                    kk,
                                    pending@[i].0,
                                    small_vec_view(pending@[i].1)[t],
                                ));
                            } else {
                                let x = small_vec_view(pending@[i].1)[t];
                                assert(small_vec_view(pending@[i].1).contains(x));
                                if x != ent {
                                    assert(small_vec_view(pre_pending[pg].1).contains(x));
                                    let t2 = choose|t2: int|
                                        0 <= t2 < small_vec_view(pre_pending[pg].1).len()
                                            && small_vec_view(pre_pending[pg].1)[t2] == x;
                                    assert(pending_entry_ok(
                                        w0,
                                        dirty@,
                                        kk,
                                        pre_pending[pg].0,
                                        x,
                                    ));
                                }
                            }
                        } else {
                            if i < pre_pending.len() {
                                assert(pending@[i] == pre_pending[i]);
                                assert(pending_entry_ok(
                                    w0,
                                    dirty@,
                                    kk,
                                    pending@[i].0,
                                    small_vec_view(pending@[i].1)[t],
                                ));
                            } else {
                                let x = small_vec_view(pending@[i].1)[t];
                                assert(small_vec_view(pending@[i].1).contains(x));
                            }
                        }
                    } else {
                        assert(pending@[i] == pre_pending[i]);
                        assert(pending_entry_ok(
                            w0,
                            dirty@,
                            kk,
                            pending@[i].0,
                            small_vec_view(pending@[i].1)[t],
                        ));
                    }
                }
                // the staged lists carry exactly the dirty children of
                // their parent, in delivery order
                lemma_fresh_list_prefix_step(w0, dirty@, kk);
                assert(dirty@[kk] == ei);
                assert forall|i: int|
                    0 <= i < pending@.len() implies small_vec_view((#[trigger] pending@[i]).1)
                        == fresh_list_prefix(w0, dirty@, kk + 1, pending@[i].0 as int) by {
                    let key = pending@[i].0 as int;
                    if pend_new is Some {
                        let pg = pend_new.unwrap();
                        if pg < pre_pending.len() {
                            let rp = pre_pending.remove(pg);
                            if i < rp.len() {
                                assert(pending@[i] == rp[i]);
                                assert(rp[i] == if i < pg { pre_pending[i] } else {
                                    pre_pending[i + 1]
                                });
                                if i < pg {
                                    assert(pre_pending[i].0 != pre_pending[pg].0);
                                } else {
                                    assert(pre_pending[pg].0 != pre_pending[i + 1].0);
                                }
                                assert(small_vec_view(pending@[i].1) == fresh_list_prefix(
                                    w0,
                                    dirty@,
                                    kk,
                                    key,
                                ));
                                assert(fresh_list_prefix(w0, dirty@, kk + 1, key)
                                    == fresh_list_prefix(w0, dirty@, kk, key));
                            } else {
                                assert(pending@[i].0 == pre_pending[pg].0);
                                assert(small_vec_view(pending@[i].1) == small_vec_view(
                                    pre_pending[pg].1,
                                ).push(ent));
                                assert(small_vec_view(pre_pending[pg].1) == fresh_list_prefix(
                                    w0,
                                    dirty@,
                                    kk,
                                    key,
                                ));
                                assert(fresh_list_prefix(w0, dirty@, kk + 1, key)
                                    == fresh_list_prefix(w0, dirty@, kk, key).push(ent));
                            }
                        } else {
                            if i < pre_pending.len() {
                                assert(pending@[i] == pre_pending[i]);
                                assert(small_vec_view(pending@[i].1) == fresh_list_prefix(
                                    w0,
                                    dirty@,
                                    kk,
                                    key,
                                ));
                                assert(pre_pending[i].0 != par_opt.unwrap().index);
                                assert(fresh_list_prefix(w0, dirty@, kk + 1, key)
                                    == fresh_list_prefix(w0, dirty@, kk, key));
                            } else {
                                assert(pending@[i].0 == par_opt.unwrap().index);
                                assert(small_vec_view(pending@[i].1) == Seq::<Entity>::empty()
                                    .push(ent));
                                assert(fresh_list_prefix(w0, dirty@, kk, key).len() == 0) by {
                                    if fresh_list_prefix(w0, dirty@, kk, key).len() > 0 {
                                        let i0 = choose|i0: int|
                                            0 <= i0 < pre_pending.len() && (
                                            #[trigger] pre_pending[i0]).0 as int == key;
                                        assert(pre_pending[i0].0 != par_opt.unwrap().index);
                                    }
                                }
                                assert(fresh_list_prefix(w0, dirty@, kk + 1, key)
                                    == fresh_list_prefix(w0, dirty@, kk, key).push(ent));
                                assert(small_vec_view(pending@[i].1) =~= fresh_list_prefix(
                                    w0,
                                    dirty@,
                                    kk + 1,
                                    key,
                                ));
                            }
                        }
                    } else {
                        assert(pending@[i] == pre_pending[i]);
                        assert(small_vec_view(pending@[i].1) == fresh_list_prefix(
                            w0,
                            dirty@,
                            kk,
                            key,
                        ));
                        assert(!pre.children.has(key));
                        assert(fresh_list_prefix(w0, dirty@, kk + 1, key) == fresh_list_prefix(
                            w0,
                            dirty@,
                            kk,
                            key,
                        ));
                    }
                }
                assert forall|p2: int|
                    #![trigger fresh_list_prefix(w0, dirty@, kk + 1, p2)]
                    !w0.children.has(p2) && fresh_list_prefix(w0, dirty@, kk + 1, p2).len() > 0
                    implies exists|i: int|
                    0 <= i < pending@.len() && (#[trigger] pending@[i]).0 as int == p2 by {
                    if fresh_list_prefix(w0, dirty@, kk, p2).len() > 0 {
                        let i0 = choose|i0: int|
                            0 <= i0 < pre_pending.len() && (#[trigger] pre_pending[i0]).0 as int
                                == p2;
                        if pend_new is Some && pend_new.unwrap() < pre_pending.len() {
                            let pg = pend_new.unwrap();
                            if i0 == pg {
                                assert((pending@[pending@.len() - 1]).0 as int == p2);
                            } else {
                                let rp = pre_pending.remove(pg);
                                let i2: int = if i0 < pg { i0 } else { i0 - 1 };
                                assert(rp[i2] == pre_pending[i0]);
                                assert(pending@[i2] == rp[i2]);
                            }
                        } else {
                            assert(pending@[i0] == pre_pending[i0]);
                        }
                    } else {
                        assert(w0.parent_index(ex) == Some(p2) && w0.prev_index(ex) != Some(
                            p2,
                        )) by {
                            if !(w0.parent_index(ex) == Some(p2) && w0.prev_index(ex) != Some(
                                p2,
                            )) {
                                assert(fresh_list_prefix(w0, dirty@, kk + 1, p2)
                                    == fresh_list_prefix(w0, dirty@, kk, p2));
                            }
                        }
                        assert(par_opt is Some);
                        assert(par_opt.unwrap().index as int == p2);
                        assert(!(prev_opt is Some && prev_opt.unwrap().index
                            == par_opt.unwrap().index));
                        assert(!skip);
                        assert(!w0.children.has(par_opt.unwrap().index as int));
                        // no staged list for p2 existed before: it would
                        // have to be empty
                        assert forall|i0: int|
                            0 <= i0 < pre_pending.len() implies (#[trigger] pre_pending[i0]).0
                                as int != p2 by {
                            if pre_pending[i0].0 as int == p2 {
                                assert(small_vec_view(pre_pending[i0].1) == fresh_list_prefix(
                                    w0,
                                    dirty@,
                                    kk,
                                    p2,
                                ));
                                assert(small_vec_view(pre_pending[i0].1).len() > 0);
                            }
                        }
                        assert(pre.children.has(par_opt.unwrap().index as int)
                            == w0.children.has(par_opt.unwrap().index as int));
                        assert(pend_new is Some);
                        assert((pending@[pending@.len() - 1]).0 as int == p2);
                    }
                }
                // well-formedness: child lists stay bounded, staged ops too
                assert forall|p2: int, t: int|
                    w.children.has(p2) && 0 <= t < small_vec_view(
                        w.children.spec_get(p2).unwrap(),
                    ).len() implies (#[trigger] small_vec_view(
                    w.children.spec_get(p2).unwrap(),
                )[t]).index < w.entity_count by {
                    let lst = small_vec_view(w.children.spec_get(p2).unwrap());
                    let x = lst[t];
                    assert(lst.contains(x));
                    if w.children.spec_get(p2) == pre.children.spec_get(p2) {
                        assert(small_vec_view(pre.children.spec_get(p2).unwrap())[t].index
                            < w0.entity_count);
                    } else if x != ent {
                        assert(cview(pre, p2).contains(x));
                        let t2 = choose|t2: int|
                            0 <= t2 < cview(pre, p2).len() && cview(pre, p2)[t2] == x;
                        assert(small_vec_view(pre.children.spec_get(p2).unwrap())[t2].index
                            < w0.entity_count);
                    } else {
                        assert(ent.index < w0.entity_count);
                    }
                }
                assert forall|i2: int| 0 <= i2 < w.lazy@.len() implies op_bounded(
                    #[trigger] w.lazy@[i2],
                    w.entity_count as int,
                ) by {
                    if i2 < pre.lazy@.len() {
                        assert(w.lazy@[i2] == pre.lazy@[i2]);
                        assert(op_bounded(pre.lazy@[i2], w.entity_count as int));
                    }
                }
                // membership of unprocessed or parentless entities is untouched
                assert forall|q2: int, x: int|
                    0 <= x < w0.entity_count && (!in_prefix(dirty@, kk + 1, x)
                        || w0.parents.spec_get(x) is None) && w.children.has(q2)
                    implies #[trigger] cview(*w, q2).contains(Entity { index: x as u32 })
                        == cview(w0, q2).contains(Entity { index: x as u32 }) by {
                    assert(pre.children.has(q2));
                    assert(cview(pre, q2).contains(Entity { index: x as u32 }) == cview(
                        w0,
                        q2,
                    ).contains(Entity { index: x as u32 }));
                    if cview(pre, q2) != cview(*w, q2) {
                        assert(par_opt is Some);
                        assert(ex < w0.entity_count);
                        assert(Entity { index: x as u32 } != ent);
                    }
                }
                // duplicates never appear
                if dup0 {
                    assert forall|q2: int| #[trigger] w.children.has(q2)
                        implies crate::children::seq_dup_free(cview(*w, q2)) by {
                        assert(pre.children.has(q2));
                        assert(crate::children::seq_dup_free(cview(pre, q2)));
                    }
                }
                // the books: recorded under the current parent, nowhere else
                if sharp {
                    assert forall|x: int|
                        #[trigger] in_prefix(dirty@, kk + 1, x) && w0.parents.has(x)
                        implies recorded(*w, pending@, w0.parent_index(x).unwrap(), x) by {
                        let px = w0.parent_index(x).unwrap();
                        if x == ex {
                            assert(Entity { index: ex as u32 } == ent);
                            if skip {
                                assert(w0.prev_parents.spec_get(ex)
                                    == Some(PreviousParent(prev_opt.unwrap())));
                                assert(m0.prev.dom().contains(ex));
                                assert(m0.prev[ex] == px);
                                assert(m0.children.dom().contains(px));
                                assert(m0.children[px] == cview(w0, px));
                                assert(m0.children[px].contains(Entity { index: ex as u32 }));
                                assert(cview(w0, px).contains(ent));
                                assert(w0.children.has(px));
                                assert(pre.children.has(px));
                                assert(cview(pre, px).contains(Entity { index: ex as u32 })
                                    == cview(w0, px).contains(Entity { index: ex as u32 }));
                                assert(cview(pre, px).contains(ent));
                            } else if !w.children.has(px) {
                                assert((pending@[pending@.len() - 1]).0 as int == px);
                                assert(small_vec_view(pending@[pending@.len() - 1].1).contains(
                                    ent,
                                ));
                            }
                        } else {
                            assert(in_prefix(dirty@, kk, x));
                            assert(recorded(pre, pre_pending, px, x));
                            if pre.children.has(px) {
                                if cview(pre, px) != cview(*w, px) {
                                    assert(Entity { index: x as u32 } != ent);
                                }
                            } else {
                                let i = choose|i: int|
                                    0 <= i < pre_pending.len() && (#[trigger] pre_pending[i]).0
                                        as int == px && small_vec_view(
                                        pre_pending[i].1,
                                    ).contains(Entity { index: x as u32 });
                                if pend_new is Some && pend_new.unwrap() == i
                                    && pend_new.unwrap() < pre_pending.len() {
                                    assert(small_vec_view(
                                        pending@[pending@.len() - 1].1,
                                    ).contains(Entity { index: x as u32 }));
                                    assert((pending@[pending@.len() - 1]).0 as int == px);
                                } else {
                                    if pend_new is Some
                                        && pend_new.unwrap() < pre_pending.len() {
                                        let pg = pend_new.unwrap();
                                        let rp = pre_pending.remove(pg);
                                        let i2: int = if i < pg { i } else { i - 1 };
                                        assert(rp[i2] == pre_pending[i]);
                                        assert(pending@[i2] == rp[i2]);
                                    } else {
                                        assert(pending@[i] == pre_pending[i]);
                                    }
                                }
                            }
                        }
                    }
                    assert forall|x: int, q2: int|
                        #![trigger in_prefix(dirty@, kk + 1, x), cview(*w, q2)]
                        in_prefix(dirty@, kk + 1, x) && w0.parents.has(x) && q2
                            != w0.parent_index(x).unwrap() && w.children.has(q2)
                        implies !cview(*w, q2).contains(Entity { index: x as u32 }) by {
                        let px = w0.parent_index(x).unwrap();
                        if x == ex {
                            assert(!in_prefix(dirty@, kk, ex));
                            if cview(pre, q2) == cview(*w, q2) {
                                assert(cview(pre, q2).contains(Entity { index: ex as u32 })
                                    == cview(w0, q2).contains(Entity { index: ex as u32 }));
                                if cview(w0, q2).contains(ent) {
                                    let t = choose|t: int|
                                        0 <= t < cview(w0, q2).len() && cview(w0, q2)[t] == ent;
                                    assert(m0.children.dom().contains(q2));
                                    assert(m0.children[q2][t] == ent);
                                    assert(m0.prev.dom().contains(ex));
                                    assert(m0.prev[ex] == q2);
                                    assert(prev_opt is Some);
                                    assert(prev_opt.unwrap().index as int == q2);
                                    assert(!skip);
                                }
                            }
                        } else {
                            assert(in_prefix(dirty@, kk, x));
                            if cview(pre, q2) != cview(*w, q2) {
                                assert(Entity { index: x as u32 } != ent);
                            }
                        }
                    }
                }
            }
            k = k + 1;
        }
        let ghost wm = *w;
        let ghost pv0 = pending@;
        let ghost tl = wm.lazy@.len() as int;
        proof {
            assert(pending@ =~= pv0.take(pv0.len() as int));
            assert(w.lazy@.subrange(0, tl) =~= wm.lazy@);
        }

        // flush: one staged list insertion per distinct new parent
        while pending.len() > 0
            invariant
                pending@.len() <= pv0.len(),
                pending@ == pv0.take(pending@.len() as int),
                pending@.len() == pv0.len() ==> *w == wm,
                w.entity_count == wm.entity_count,
                w.locals == wm.locals,
                w.globals == wm.globals,
                w.parents == wm.parents,
                w.prev_parents == wm.prev_parents,
                w.children == wm.children,
                w.wf(),
                w.lazy@.len() == tl + (pv0.len() - pending@.len()),
                w.lazy@.subrange(0, tl) == wm.lazy@,
                forall|t: int|
                    0 <= t < pv0.len() - pending@.len() ==> #[trigger] w.lazy@[tl + t]
                        == (LazyOp::InsertChildren {
                        entity: Entity { index: pv0[pv0.len() - 1 - t].0 },
                        list: pv0[pv0.len() - 1 - t].1,
                    }),
            decreases pending@.len(),
        {
            let ghost pre_lazy = w.lazy@;
            let ghost pre_len = pending@.len() as int;
            let entry = pending.pop().unwrap();
            let (key, list) = entry;
            proof {
                assert(pv0.take(pre_len)[pre_len - 1] == pv0[pre_len - 1]);
                assert(pending@ =~= pv0.take(pre_len - 1));
            }
            w.lazy.push(LazyOp::InsertChildren { entity: Entity { index: key }, list });
            proof {
                assert(w.lazy@.subrange(0, tl) =~= pre_lazy.subrange(0, tl));
                assert forall|t: int| 0 <= t < pv0.len() - pending@.len()
                    implies #[trigger] w.lazy@[tl + t] == (LazyOp::InsertChildren {
                        entity: Entity { index: pv0[pv0.len() - 1 - t].0 },
                        list: pv0[pv0.len() - 1 - t].1,
                    }) by {
                    if t < pv0.len() - pre_len {
                        assert(w.lazy@[tl + t] == pre_lazy[tl + t]);
                    } else {
                        assert(pv0.len() - 1 - t == pre_len - 1);
                        assert(w.lazy@[tl + t] == w.lazy@[w.lazy@.len() - 1]);
                    }
                }
            }
        }
        proof {
            finish_maintenance(w0, wr, wm, *w, r, dirty@, cl_ops, pv0);
        }
    }
}

} // verus!
