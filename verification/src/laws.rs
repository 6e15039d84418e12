//! The guarantees of the scene-graph systems, stated on their own: each
//! law is proved from `maintenance_spec` and `propagation_spec` alone,
//! exactly as a caller of the systems would derive it.

use vstd::prelude::*;

use crate::entity::Entity;
use crate::hierarchy::all_removed;
use crate::hierarchy::cache_synced;
use crate::hierarchy::children_dup_free;
use crate::hierarchy::dirty_of;
use crate::hierarchy::hier_linked;
use crate::hierarchy::maintenance_spec;
use crate::hierarchy::no_lost_recorded;
use crate::matrix::mat4_entries_tame;
use crate::matrix::mat4_mul_of;
use crate::storage::ReaderId;
use crate::transform::local_view;
use crate::transform::propagation_spec;
use crate::transform::product_of;
use crate::transform::root_dirty;
use crate::transform::stored_global;
use crate::world::World;
use crate::world::stages_global;

verus! {

/// Reparent consistency: once a maintenance pass over well-kept books
/// reconciles an entity `a` whose parent is now `b`, the committed state
/// records `a` under `b` and nowhere else, and caches `b` as the parent
/// last seen.
pub proof fn law_reparent_consistency(w0: World, w1: World, r: ReaderId, a: int, b: int)
    requires
        maintenance_spec(w0, w1, r),
        hier_linked(w0.model(), w0.entity_count as int),
        children_dup_free(w0.model().children),
        dirty_of(w0.parents.pending(r)).contains(a),
        0 <= a < w0.entity_count,
        w0.parent_index(a) == Some(b),
    ensures
        w1.folded().children.dom().contains(b),
        w1.folded().children[b].contains(Entity { index: a as u32 }),
        forall|q: int|
            q != b && #[trigger] w1.folded().children.dom().contains(q) ==> !w1.folded().children[q]
                .contains(Entity { index: a as u32 }),
        w1.folded().prev.dom().contains(a),
        w1.folded().prev[a] == b,
{
    assert(w0.parent_index(a) is Some);
    assert(w0.parent_index(a).unwrap() == b);
}

/// No duplicate children: a maintenance pass over duplicate-free child
/// lists commits duplicate-free child lists, however often an entity was
/// reparented to the same parent within the tick.
pub proof fn law_no_duplicate_children(w0: World, w1: World, r: ReaderId)
    requires
        maintenance_spec(w0, w1, r),
        children_dup_free(w0.model().children),
    ensures
        children_dup_free(w1.folded().children),
{
}

/// Parent removal cleans the cache: an entity without a `Parent` has no
/// `PreviousParent` once the pass's staged writes are committed,
/// whatever its prior parent chain was.
pub proof fn law_parent_removal_cleans_cache(w0: World, w1: World, r: ReaderId, a: int)
    requires
        maintenance_spec(w0, w1, r),
        0 <= a < w0.entity_count,
        w0.parent_index(a) is None,
    ensures
        !w1.folded().prev.dom().contains(a),
{
}

/// Idempotence of a no-op pass: a maintenance run that finds no undrained
/// insert or modify event and no stale cache entry writes nothing: the
/// caches, the child lists and the queue are exactly as they were.
pub proof fn law_noop_maintenance(w0: World, w1: World, r: ReaderId)
    requires
        maintenance_spec(w0, w1, r),
        all_removed(w0.parents.pending(r)),
        forall|e: int|
            0 <= e < w0.entity_count
                ==> !(#[trigger] w0.prev_parents.has(e) && !w0.parents.has(e)),
    ensures
        w1.prev_parents == w0.prev_parents,
        w1.children == w0.children,
        w1.lazy == w0.lazy,
        w1.parents.pending(r) == Seq::<crate::storage::StorageEvent>::empty(),
{
}

/// Eventual consistency of the tree: a maintenance pass over well-kept
/// books, with the cache in step with the undrained events and no
/// reparent-then-removal folded into one tick, commits a state where an
/// entity has a cache entry exactly when it has a parent and the two
/// agree, and where an entity is recorded as a child of exactly its
/// parent.
pub proof fn law_reconciliation(w0: World, w1: World, r: ReaderId)
    requires
        maintenance_spec(w0, w1, r),
        hier_linked(w0.model(), w0.entity_count as int),
        children_dup_free(w0.model().children),
        cache_synced(w0, dirty_of(w0.parents.pending(r))),
        no_lost_recorded(w0, dirty_of(w0.parents.pending(r))),
    ensures
        forall|e: int|
            0 <= e < w0.entity_count ==> #[trigger] w1.folded().prev.dom().contains(e) == (
            w0.parent_index(e) is Some),
        forall|e: int|
            0 <= e < w0.entity_count && #[trigger] w1.folded().prev.dom().contains(e) ==> Some(
                w1.folded().prev[e],
            ) == w0.parent_index(e),
        forall|e: int, p: int|
            #![trigger w1.folded().children[p].contains(Entity { index: e as u32 })]
            #![trigger w0.parent_index(e), w1.folded().children.dom().contains(p)]
            0 <= e < w0.entity_count && w0.parent_index(e) == Some(p) ==> w1.folded().children
                .dom().contains(p) && w1.folded().children[p].contains(Entity { index: e as u32 }),
        forall|e: int, q: int|
            #![trigger w1.folded().children[q].contains(Entity { index: e as u32 })]
            0 <= e < w0.entity_count && w1.folded().children.dom().contains(q)
                && w1.folded().children[q].contains(Entity { index: e as u32 })
                ==> w0.parent_index(e) == Some(q),
{
    let n = w0.entity_count as int;
    let dirty = dirty_of(w0.parents.pending(r));
    let m0 = w0.model();
    let f = w1.folded();
    assert forall|e: int|
        0 <= e < w0.entity_count implies #[trigger] w1.folded().prev.dom().contains(e) == (
        w0.parent_index(e) is Some) && (w1.folded().prev.dom().contains(e) ==> Some(
            w1.folded().prev[e],
        ) == w0.parent_index(e)) by {
        assert(w1.folded() == f);
        if !dirty.contains(e) {
            assert(w0.prev_index(e) == w0.parent_index(e));
            assert(m0.prev.dom().contains(e) == (w0.prev_index(e) is Some));
            if m0.prev.dom().contains(e) {
                assert(m0.prev[e] == w0.prev_index(e).unwrap());
            }
        }
    }
    assert forall|e: int, p: int|
        #![trigger w1.folded().children[p].contains(Entity { index: e as u32 })]
        #![trigger w0.parent_index(e), w1.folded().children.dom().contains(p)]
        0 <= e < w0.entity_count && w0.parent_index(e) == Some(p) implies w1.folded().children
            .dom().contains(p) && w1.folded().children[p].contains(Entity { index: e as u32 }) by {
        assert(w1.folded() == f);
        if dirty.contains(e) {
            assert(w0.parent_index(e).unwrap() == p);
        } else {
            assert(w0.prev_index(e) == w0.parent_index(e));
            assert(m0.prev.dom().contains(e) && m0.prev[e] == p);
            assert(m0.children.dom().contains(p) && m0.children[p].contains(
                Entity { index: e as u32 },
            ));
            assert(f.children[p].contains(Entity { index: e as u32 }) == m0.children[p].contains(
                Entity { index: e as u32 },
            ));
        }
    }
    assert forall|e: int, q: int|
        #![trigger w1.folded().children[q].contains(Entity { index: e as u32 })]
        0 <= e < w0.entity_count && w1.folded().children.dom().contains(q)
            && w1.folded().children[q].contains(Entity { index: e as u32 })
            implies w0.parent_index(e) == Some(q) by {
        assert(w1.folded() == f);
        if dirty.contains(e) && w0.parent_index(e) is Some {
            if q != w0.parent_index(e).unwrap() {
                assert(!f.children[q].contains(Entity { index: e as u32 }));
            }
        } else {
            // either never dirtied, or dirtied with its parent gone: in
            // both cases its recorded memberships are exactly the old ones
            if dirty.contains(e) {
                assert(w0.prev_index(e) is None);
            } else {
                assert(w0.prev_index(e) == w0.parent_index(e));
            }
            assert(f.children[q].contains(Entity { index: e as u32 }) == (m0.children.dom()
                .contains(q) && m0.children[q].contains(Entity { index: e as u32 }))) by {
                if !(m0.children.dom().contains(q) && m0.children[q].contains(
                    Entity { index: e as u32 },
                )) {
                    assert((f.children.dom().contains(q) && f.children[q].contains(
                        Entity { index: e as u32 },
                    )) == (m0.children.dom().contains(q) && m0.children[q].contains(
                        Entity { index: e as u32 },
                    )));
                }
            }
            if m0.children.dom().contains(q) && m0.children[q].contains(
                Entity { index: e as u32 },
            ) {
                let t = choose|t: int|
                    0 <= t < m0.children[q].len() && m0.children[q][t] == (
                    Entity { index: e as u32 });
                assert(m0.children[q][t].index as int == e);
                assert(m0.prev.dom().contains(e) && m0.prev[e] == q);
                assert(w0.prev_index(e) is Some && w0.prev_index(e).unwrap() == q);
            }
        }
    }
}

/// Global matrix root identity: a root that is recorded in no child list
/// keeps its global transform through a propagation pass, so a root
/// seeded with its own local transform still carries it afterwards.
pub proof fn law_root_identity(w0: World, w1: World, r: ReaderId, p: int)
    requires
        propagation_spec(w0, w1, r),
        0 <= p < w0.entity_count,
        w0.parents.spec_get(p) is None,
        w0.locals.has(p),
        w0.globals.has(p),
        stored_global(w0, p) == local_view(w0, p),
        forall|q: int|
            0 <= q < w0.entity_count && #[trigger] w0.children.has(q) ==> !w0.child_list(
                q,
            ).contains(Entity { index: p as u32 }),
    ensures
        w1.folded().global.dom().contains(p),
        w1.folded().global[p] == local_view(w0, p),
{
    let ops = w1.lazy@;
    assert(!stages_global(ops, p as u32)) by {
        if stages_global(ops, p as u32) {
            assert((p as u32) as int == p);
        }
    }
    assert(w0.model().global.dom().contains(p));
    assert(w0.model().global[p] == stored_global(w0, p));
}

/// Global matrix chain composition: on a chain root -> a -> b, each
/// recorded only under its one parent and the root recorded nowhere,
/// marking the root dirty makes one propagation pass commit
/// `global(b) == (global(root) * local(a)) * local(b)`, the parent
/// matrix always the left operand. The transforms on the chain, and the
/// intermediate product, must be tame — of bounded finite magnitude —
/// since beyond that range a product's bit pattern is not a function of
/// its operands.
pub proof fn law_chain_composition(w0: World, w1: World, r: ReaderId, rt: int, a: int, b: int)
    requires
        propagation_spec(w0, w1, r),
        0 <= rt < w0.entity_count,
        0 <= a < w0.entity_count,
        0 <= b < w0.entity_count,
        root_dirty(w0, r, rt),
        w0.parents.spec_get(a) is Some,
        w0.parents.spec_get(b) is Some,
        w0.locals.has(a) && w0.globals.has(a),
        w0.locals.has(b) && w0.globals.has(b),
        w0.children.has(rt) && w0.child_list(rt).contains(Entity { index: a as u32 }),
        w0.children.has(a) && w0.child_list(a).contains(Entity { index: b as u32 }),
        forall|q: int|
            0 <= q < w0.entity_count && #[trigger] w0.children.has(q) && q != rt
                ==> !w0.child_list(q).contains(Entity { index: a as u32 }),
        forall|q: int|
            0 <= q < w0.entity_count && #[trigger] w0.children.has(q) && q != a
                ==> !w0.child_list(q).contains(Entity { index: b as u32 }),
        forall|q: int|
            0 <= q < w0.entity_count && #[trigger] w0.children.has(q) ==> !w0.child_list(
                q,
            ).contains(Entity { index: rt as u32 }),
        rt != a && a != b && rt != b,
        mat4_entries_tame(stored_global(w0, rt)),
        mat4_entries_tame(local_view(w0, a)),
        mat4_entries_tame(local_view(w0, b)),
        mat4_entries_tame(mat4_mul_of(stored_global(w0, rt), local_view(w0, a))),
    ensures
        w1.folded().global.dom().contains(b),
        w1.folded().global[b] == mat4_mul_of(
            mat4_mul_of(stored_global(w0, rt), local_view(w0, a)),
            local_view(w0, b),
        ),
{
    let ops = w1.lazy@;
    let f = w1.folded();
    // the subtree of the dirty root was rewritten
    let ia = choose|t: int|
        0 <= t < w0.child_list(rt).len() && w0.child_list(rt)[t] == (Entity { index: a as u32 });
    assert(w0.child_list(rt)[ia] == (Entity { index: a as u32 }));
    assert(stages_global(ops, a as u32)) by {
        assert(root_dirty(w0, r, rt) || stages_global(ops, rt as u32));
        assert(0 <= ia < w0.child_list(rt).len());
        assert((w0.child_list(rt)[ia].index) as int == a);
        assert(w0.locals.has(w0.child_list(rt)[ia].index as int));
        assert(w0.globals.has(w0.child_list(rt)[ia].index as int));
        assert(stages_global(ops, w0.child_list(rt)[ia].index));
    }
    let ib = choose|t: int|
        0 <= t < w0.child_list(a).len() && w0.child_list(a)[t] == (Entity { index: b as u32 });
    assert(w0.child_list(a)[ib] == (Entity { index: b as u32 }));
    assert(stages_global(ops, b as u32)) by {
        assert(root_dirty(w0, r, a) || stages_global(ops, a as u32));
        assert(0 <= ib < w0.child_list(a).len());
        assert((w0.child_list(a)[ib].index) as int == b);
        assert(w0.locals.has(w0.child_list(a)[ib].index as int));
        assert(w0.globals.has(w0.child_list(a)[ib].index as int));
        assert(stages_global(ops, w0.child_list(a)[ib].index));
    }
    // the root itself was not: it is recorded nowhere
    assert(!stages_global(ops, rt as u32)) by {
        if stages_global(ops, rt as u32) {
            assert((rt as u32) as int == rt);
        }
    }
    // the one source of a is the root, with the stored seed
    assert(f.global.dom().contains(a) && f.global[a] == mat4_mul_of(
        stored_global(w0, rt),
        local_view(w0, a),
    )) by {
        let p = choose|p: int|
            0 <= p < w0.entity_count as int && (#[trigger] w0.children.has(p)) && w0.child_list(
                p,
            ).contains(Entity { index: a as u32 }) && ((root_dirty(w0, r, p) && product_of(
                f.global[a],
                stored_global(w0, p),
                local_view(w0, a),
            )) || (stages_global(ops, p as u32) && f.global.dom().contains(p) && product_of(
                f.global[a],
                f.global[p],
                local_view(w0, a),
            )));
        assert(p == rt);
        if !(root_dirty(w0, r, p) && product_of(
            f.global[a],
            stored_global(w0, p),
            local_view(w0, a),
        )) {
            assert(stages_global(ops, rt as u32));
        }
    }
    // and the one source of b is a, with a's freshly committed global
    assert(f.global.dom().contains(b) && f.global[b] == mat4_mul_of(
        f.global[a],
        local_view(w0, b),
    )) by {
        let p = choose|p: int|
            0 <= p < w0.entity_count as int && (#[trigger] w0.children.has(p)) && w0.child_list(
                p,
            ).contains(Entity { index: b as u32 }) && ((root_dirty(w0, r, p) && product_of(
                f.global[b],
                stored_global(w0, p),
                local_view(w0, b),
            )) || (stages_global(ops, p as u32) && f.global.dom().contains(p) && product_of(
                f.global[b],
                f.global[p],
                local_view(w0, b),
            )));
        assert(p == a);
        if root_dirty(w0, r, p) {
            assert(w0.parents.spec_get(a) is None);
        }
        assert(mat4_entries_tame(f.global[a]));
    }
}

/// An unchanged entity is not rewritten: an entity recorded under no
/// parent at all — or only under parents that are neither dirty roots
/// nor rewritten — keeps its global transform and receives no staged
/// write in the queue.
pub proof fn law_untouched_keeps_global(w0: World, w1: World, r: ReaderId, x: int)
    requires
        propagation_spec(w0, w1, r),
        0 <= x < w0.entity_count,
        forall|q: int|
            0 <= q < w0.entity_count && #[trigger] w0.children.has(q) ==> !w0.child_list(
                q,
            ).contains(Entity { index: x as u32 }),
    ensures
        !stages_global(w1.lazy@, x as u32),
        w1.folded().global.dom().contains(x) == w0.globals.has(x),
        w0.globals.has(x) ==> w1.folded().global[x] == w0.globals.spec_get(x).unwrap().0@,
{
    let ops = w1.lazy@;
    assert(!stages_global(ops, x as u32)) by {
        if stages_global(ops, x as u32) {
            assert((x as u32) as int == x);
        }
    }
    assert(w0.model().global.dom().contains(x) == w0.globals.has(x));
}

} // verus!
