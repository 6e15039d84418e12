//! Local and global transform components.
//!
//! `LocalMatrix` is the entity's transform relative to its parent (or to
//! world space for a root); `GlobalMatrix` is the resolved world-space
//! transform, derived by the propagation system and authored directly
//! only as the root seed.

use vstd::prelude::*;

use crate::entity::Entity;
use crate::matrix::Matrix4;
use crate::matrix::identity_bits;
use crate::matrix::mat4_mul;
use crate::matrix::mat4_entries_tame;
use crate::matrix::mat4_mul_of;
use crate::storage::EventKind;
use crate::storage::ReaderId;
use crate::storage::StorageEvent;
use crate::world::LazyOp;
use crate::world::World;
use crate::world::global_op_for;
use crate::world::lemma_fold_children_untouched;
use crate::world::lemma_fold_global_untouched;
use crate::world::lemma_fold_global_write;
use crate::world::lemma_fold_prev_untouched;
use crate::world::op_stages_global;
use crate::world::stages_global;

verus! {

/// An entity's transform relative to its parent.
#[derive(Clone, Copy, Debug)]
pub struct LocalMatrix(pub Matrix4);

/// An entity's transform in world space, derived by propagation.
#[derive(Clone, Copy, Debug)]
pub struct GlobalMatrix(pub Matrix4);

impl Default for LocalMatrix {
    /// New entities start from the identity transform.
    fn default() -> (d: Self)
        ensures
            d.0@ == identity_bits(),
    {
        LocalMatrix(Matrix4::identity())
    }
}

impl Default for GlobalMatrix {
    /// New entities start from the identity transform.
    fn default() -> (d: Self)
        ensures
            d.0@ == identity_bits(),
    {
        GlobalMatrix(Matrix4::identity())
    }
}

/// The entities named by undrained modify events; insertions are not
/// tracked as dirty by this system.
pub open spec fn modified_of(evs: Seq<StorageEvent>) -> Set<int> {
    Set::new(
        |e: int|
            exists|k: int|
                0 <= k < evs.len() && ((#[trigger] evs[k]).kind == EventKind::Modified)
                    && evs[k].entity as int == e,
    )
}

/// Whether the event stream holds no modify event at all.
pub open spec fn all_unmodified(evs: Seq<StorageEvent>) -> bool {
    forall|k: int| 0 <= k < evs.len() ==> (#[trigger] evs[k]).kind != EventKind::Modified
}

/// A root whose local transform was marked dirty: it has both transform
/// components, no parent, and an undrained modify event; its subtree is
/// what one propagation pass rewrites.
pub open spec fn root_dirty(w0: World, r: ReaderId, p: int) -> bool {
    &&& modified_of(w0.locals.pending(r)).contains(p)
    &&& w0.locals.has(p)
    &&& w0.globals.has(p)
    &&& w0.parents.spec_get(p) is None
}

/// The entries of the local transform of `e`.
pub open spec fn local_view(w: World, e: int) -> Seq<u32> {
    w.locals.spec_get(e).unwrap().0@
}

/// The matrix the first staged write for `e` carries.
pub open spec fn staged_val(ops: Seq<LazyOp>, e: u32) -> Seq<u32>
    decreases ops.len(),
{
    if ops.len() == 0 {
        Seq::empty()
    } else if op_stages_global(ops[0], e) {
        ops[0]->InsertGlobalMatrix_matrix.0@
    } else {
        staged_val(ops.drop_first(), e)
    }
}

/// The stored global transform of `p`.
pub open spec fn stored_global(w0: World, p: int) -> Seq<u32> {
    w0.globals.spec_get(p).unwrap().0@
}

/// The staged matrix `m` is the product of the given parent-side global
/// and the child's local transform, as far as tame operands pin the
/// product down; outside that range the product's bit pattern is not a
/// function of the operands and nothing is claimed.
pub open spec fn product_of(m: Seq<u32>, parent_side: Seq<u32>, local: Seq<u32>) -> bool {
    mat4_entries_tame(parent_side) && mat4_entries_tame(local) ==> m == mat4_mul_of(
        parent_side,
        local,
    )
}

/// Every staged write recomputes a recorded child `c`, as the product of
/// the parent-side global and the child's local transform: the walk seeds
/// a dirty root's subtree with the root's stored global — the root itself
/// is not rewritten — and below that carries the freshly staged values.
pub open spec fn edge_ok(w0: World, r: ReaderId, ops: Seq<LazyOp>, j: int) -> bool {
    &&& ops[j] is InsertGlobalMatrix
    &&& {
        let c = ops[j]->InsertGlobalMatrix_entity;
        let m = ops[j]->InsertGlobalMatrix_matrix;
        &&& c.index < w0.entity_count
        &&& w0.locals.has(c.index as int)
        &&& w0.globals.has(c.index as int)
        &&& exists|p: int|
            0 <= p < w0.entity_count && (#[trigger] w0.children.has(p)) && w0.child_list(
                p,
            ).contains(c) && ((root_dirty(w0, r, p) && product_of(
                m.0@,
                stored_global(w0, p),
                local_view(w0, c.index as int),
            )) || (stages_global(ops, p as u32) && product_of(
                m.0@,
                staged_val(ops, p as u32),
                local_view(w0, c.index as int),
            )))
    }
}

/// Appending ops never changes an already staged value.
proof fn lemma_staged_val_grow(ops: Seq<LazyOp>, more: Seq<LazyOp>, e: u32)
    requires
        ops.len() <= more.len(),
        forall|j: int| 0 <= j < ops.len() ==> #[trigger] more[j] == ops[j],
        stages_global(ops, e),
    ensures
        stages_global(more, e),
        staged_val(more, e) == staged_val(ops, e),
    decreases ops.len(),
{
    let j0 = choose|j: int| 0 <= j < ops.len() && op_stages_global(#[trigger] ops[j], e);
    assert(op_stages_global(more[j0], e));
    assert(stages_global(more, e));
    if op_stages_global(ops[0], e) {
        assert(staged_val(ops, e) == ops[0]->InsertGlobalMatrix_matrix.0@);
        assert(staged_val(more, e) == more[0]->InsertGlobalMatrix_matrix.0@);
    } else {
        assert(j0 != 0);
        assert(op_stages_global(ops.drop_first()[j0 - 1], e));
        assert(stages_global(ops.drop_first(), e));
        assert(forall|j: int|
            0 <= j < ops.drop_first().len() ==> #[trigger] more.drop_first()[j]
                == ops.drop_first()[j]);
        lemma_staged_val_grow(ops.drop_first(), more.drop_first(), e);
        assert(staged_val(more, e) == staged_val(more.drop_first(), e));
    }
}

/// For a queue whose staged entities are pairwise distinct, the one op
/// for `e` carries exactly `staged_val`.
proof fn lemma_staged_val_at(ops: Seq<LazyOp>, e: u32, j: int)
    requires
        0 <= j < ops.len(),
        op_stages_global(ops[j], e),
        forall|k: int| 0 <= k < ops.len() && k != j ==> !op_stages_global(#[trigger] ops[k], e),
    ensures
        staged_val(ops, e) == ops[j]->InsertGlobalMatrix_matrix.0@,
    decreases j,
{
    if j == 0 {
    } else {
        assert(!op_stages_global(ops[0], e));
        assert(forall|k: int| 0 <= k < ops.drop_first().len()
            ==> #[trigger] ops.drop_first()[k] == ops[k + 1]);
        lemma_staged_val_at(ops.drop_first(), e, j - 1);
    }
}

/// How many entries of the mask are still unset.
pub open spec fn count_false(s: Seq<bool>) -> nat
    decreases s.len(),
{
    if s.len() == 0 {
        0
    } else {
        (count_false(s.drop_last()) + (if s.last() { 0int } else { 1int })) as nat
    }
}

/// Setting an unset entry lowers the count by one.
proof fn lemma_count_false_update(s: Seq<bool>, i: int)
    requires
        0 <= i < s.len(),
        !s[i],
    ensures
        count_false(s.update(i, true)) == count_false(s) - 1,
    decreases s.len(),
{
    if i == s.len() - 1 {
        assert(s.update(i, true).drop_last() =~= s.drop_last());
    } else {
        assert(s.update(i, true).drop_last() =~= s.drop_last().update(i, true));
        lemma_count_false_update(s.drop_last(), i);
    }
}

/// What one propagation pass guarantees, stated between the pre-state
/// `w0` and the post-state `w1`, over the state `w1.folded()` that the
/// next barrier will commit.
pub open spec fn propagation_spec(w0: World, w1: World, r: ReaderId) -> bool {
    let n = w0.entity_count as int;
    let ops = w1.lazy@;
    let m0 = w0.model();
    let f = w1.folded();
    // the frame: everything but the queue and the reader cursor is as it was
    &&& w1.entity_count == w0.entity_count
    &&& w1.parents == w0.parents
    &&& w1.prev_parents == w0.prev_parents
    &&& w1.children == w0.children
    &&& w1.globals == w0.globals
    &&& forall|x: int| #[trigger] w1.locals.spec_get(x) == w0.locals.spec_get(x)
    &&& w1.locals.log() == w0.locals.log()
    &&& w1.locals.reader_count() == w0.locals.reader_count()
    &&& w1.locals.pending(r) == Seq::<StorageEvent>::empty()
    &&& forall|q: ReaderId|
        0 <= q.id < w0.locals.reader_count() && q.id != r.id ==> #[trigger] w1.locals.cursor(q)
            == w0.locals.cursor(q)
    // the queue holds only global-matrix writes, one per entity
    &&& forall|j: int| 0 <= j < ops.len() ==> #[trigger] edge_ok(w0, r, ops, j)
    &&& forall|j1: int, j2: int|
        0 <= j1 < j2 < ops.len() ==> (#[trigger] ops[j1])->InsertGlobalMatrix_entity
            != (#[trigger] ops[j2])->InsertGlobalMatrix_entity
    // what was rewritten: a recorded child of a dirty root or of another
    // rewritten entity, as the product down the chain; a dirty root's own
    // children start from the root's stored (seeded) global
    &&& forall|e: int|
        0 <= e < n && #[trigger] stages_global(ops, e as u32) ==> w0.locals.has(e)
            && w0.globals.has(e) && f.global.dom().contains(e) && exists|p: int|
            0 <= p < n && (#[trigger] w0.children.has(p)) && w0.child_list(p).contains(
                Entity { index: e as u32 },
            ) && ((root_dirty(w0, r, p) && product_of(
                f.global[e],
                stored_global(w0, p),
                local_view(w0, e),
            )) || (stages_global(ops, p as u32) && f.global.dom().contains(p) && product_of(
                f.global[e],
                f.global[p],
                local_view(w0, e),
            )))
    // and everything so recorded was rewritten
    &&& forall|p: int, t: int|
        #![trigger w0.child_list(p)[t], root_dirty(w0, r, p)]
        #![trigger w0.child_list(p)[t], stages_global(ops, p as u32)]
        0 <= p < n && (root_dirty(w0, r, p) || stages_global(ops, p as u32)) && w0.children.has(p)
            && 0 <= t < w0.child_list(p).len() && w0.locals.has(w0.child_list(p)[t].index as int)
            && w0.globals.has(w0.child_list(p)[t].index as int) ==> stages_global(
            ops,
            w0.child_list(p)[t].index,
        )
    // everything else keeps its global matrix
    &&& forall|e: int|
        0 <= e < n && !stages_global(ops, e as u32) ==> #[trigger] f.global.dom().contains(e)
            == m0.global.dom().contains(e) && (m0.global.dom().contains(e) ==> f.global[e]
            == m0.global[e])
    &&& forall|e: int|
        !(0 <= e < n) ==> #[trigger] f.global.dom().contains(e) == m0.global.dom().contains(e)
            && (m0.global.dom().contains(e) ==> f.global[e] == m0.global[e])
    // the hierarchy books are untouched by the queue
    &&& forall|e: int|
        #[trigger] f.prev.dom().contains(e) == m0.prev.dom().contains(e) && (m0.prev.dom()
            .contains(e) ==> f.prev[e] == m0.prev[e])
    &&& forall|p: int|
        #[trigger] f.children.dom().contains(p) == m0.children.dom().contains(p) && (
        m0.children.dom().contains(p) ==> f.children[p] == m0.children[p])
    // a pass with nothing marked dirty stages nothing
    &&& (all_unmodified(w0.locals.pending(r)) ==> w1.lazy == w0.lazy)
    &&& w1.wf()
}

/// The transform propagation system: owns one reader cursor on the
/// `LocalMatrix` change stream, created at setup.
pub struct TransformSystem {
    pub reader_id: Option<ReaderId>,
}

impl TransformSystem {
    /// A system not yet wired to a world; it must be `setup` before it
    /// can run.
    pub fn new() -> (s: Self)
        ensures
            s.reader_id is None,
    {
        TransformSystem { reader_id: None }
    }

    /// Register this system's reader cursor on the `LocalMatrix` storage.
    pub fn setup(&mut self, res: &mut World)
        requires
            old(res).wf(),
        ensures
            final(res).wf(),
            final(self).reader_id is Some,
            final(self).reader_id.unwrap().id as int == old(res).locals.reader_count(),
            final(res).locals.reader_count() == old(res).locals.reader_count() + 1,
            final(res).locals.pending(final(self).reader_id.unwrap())
                == Seq::<StorageEvent>::empty(),
            forall|x: int| #[trigger] final(res).locals.spec_get(x)
                == old(res).locals.spec_get(x),
            final(res).locals.log() == old(res).locals.log(),
            forall|q: ReaderId| 0 <= q.id < old(res).locals.reader_count()
                ==> #[trigger] final(res).locals.cursor(q) == old(res).locals.cursor(q),
            final(res).parents == old(res).parents,
            final(res).prev_parents == old(res).prev_parents,
            final(res).children == old(res).children,
            final(res).globals == old(res).globals,
            final(res).lazy == old(res).lazy,
            final(res).entity_count == old(res).entity_count,
    {
        let r = res.locals.register_reader();
        self.reader_id = Some(r);
    }
}

/// Whether entity `c` still waits on the walk's stack.
spec fn in_stack(st: Seq<(Entity, Matrix4, bool)>, c: Entity) -> bool {
    exists|t: int| 0 <= t < st.len() && (#[trigger] st[t]).0 == c
}

/// A stack entry carries a recorded child together with the global of
/// the parent it was reached from, and the changed flag.
spec fn entry_src_ok(w0: World, r: ReaderId, ops: Seq<LazyOp>, en: (Entity, Matrix4, bool)) -> bool {
    &&& en.0.index < w0.entity_count
    &&& en.2
    &&& exists|p: int|
        0 <= p < w0.entity_count && (#[trigger] w0.children.has(p)) && w0.child_list(p).contains(
            en.0,
        ) && ((root_dirty(w0, r, p) && en.1@ == stored_global(w0, p)) || (stages_global(
            ops,
            p as u32,
        ) && en.1@ == staged_val(ops, p as u32)))
}

/// Every recorded child of `p` carrying both transforms was rewritten or
/// still waits on the stack.
spec fn closed_under(
    w0: World,
    ops: Seq<LazyOp>,
    st: Seq<(Entity, Matrix4, bool)>,
    p: int,
) -> bool {
    forall|t: int|
        0 <= t < w0.child_list(p).len() && w0.locals.has(
            (#[trigger] w0.child_list(p)[t]).index as int,
        ) && w0.globals.has(w0.child_list(p)[t].index as int) ==> stages_global(
            ops,
            w0.child_list(p)[t].index,
        ) || in_stack(st, w0.child_list(p)[t])
}

/// Popping the entry of a freshly rewritten entity keeps every closure:
/// the popped entity is now staged, and the remaining entries survive.
proof fn closure_after_pop(
    w0: World,
    r: ReaderId,
    pre_ops: Seq<LazyOp>,
    ops2: Seq<LazyOp>,
    pre_stack: Seq<(Entity, Matrix4, bool)>,
    mid_stack: Seq<(Entity, Matrix4, bool)>,
    new_stack: Seq<(Entity, Matrix4, bool)>,
    c: Entity,
    p: int,
)
    requires
        closed_under(w0, pre_ops, pre_stack, p),
        pre_stack.len() > 0,
        mid_stack == pre_stack.drop_last(),
        pre_stack[pre_stack.len() - 1].0 == c,
        new_stack.len() >= mid_stack.len(),
        forall|u: int| 0 <= u < mid_stack.len() ==> #[trigger] new_stack[u] == mid_stack[u],
        forall|e2: u32| #[trigger] stages_global(pre_ops, e2) ==> stages_global(ops2, e2),
        stages_global(ops2, c.index),
    ensures
        closed_under(w0, ops2, new_stack, p),
{
    assert forall|t: int|
        0 <= t < w0.child_list(p).len() && w0.locals.has(
            (#[trigger] w0.child_list(p)[t]).index as int,
        ) && w0.globals.has(w0.child_list(p)[t].index as int) implies stages_global(
        ops2,
        w0.child_list(p)[t].index,
    ) || in_stack(new_stack, w0.child_list(p)[t]) by {
        let x = w0.child_list(p)[t];
        if stages_global(pre_ops, x.index) {
        } else if in_stack(pre_stack, x) {
            let u = choose|u: int| 0 <= u < pre_stack.len() && (#[trigger] pre_stack[u]).0 == x;
            if u < mid_stack.len() {
                assert(new_stack[u] == pre_stack[u]);
                assert(in_stack(new_stack, x));
            } else {
                assert(x == c);
            }
        }
    }
}

/// Popping an entry whose entity is already accounted for (staged if it
/// carries both transforms) keeps every closure.
proof fn skip_keeps_closure(
    w0: World,
    r: ReaderId,
    ops: Seq<LazyOp>,
    pre_stack: Seq<(Entity, Matrix4, bool)>,
    new_stack: Seq<(Entity, Matrix4, bool)>,
    c: Entity,
    p: int,
)
    requires
        closed_under(w0, ops, pre_stack, p),
        pre_stack.len() > 0,
        new_stack == pre_stack.drop_last(),
        pre_stack[pre_stack.len() - 1].0 == c,
        w0.locals.has(c.index as int) && w0.globals.has(c.index as int) ==> stages_global(
            ops,
            c.index,
        ),
    ensures
        closed_under(w0, ops, new_stack, p),
{
    assert forall|t: int|
        0 <= t < w0.child_list(p).len() && w0.locals.has(
            (#[trigger] w0.child_list(p)[t]).index as int,
        ) && w0.globals.has(w0.child_list(p)[t].index as int) implies stages_global(
        ops,
        w0.child_list(p)[t].index,
    ) || in_stack(new_stack, w0.child_list(p)[t]) by {
        let x = w0.child_list(p)[t];
        if !stages_global(ops, x.index) && in_stack(pre_stack, x) {
            let u = choose|u: int| 0 <= u < pre_stack.len() && (#[trigger] pre_stack[u]).0 == x;
            if u < new_stack.len() {
                assert(new_stack[u] == pre_stack[u]);
                assert(in_stack(new_stack, x));
            } else {
                assert(x == c);
            }
        }
    }
}

/// Ties the state after all dirty roots were walked — queue `wfin.lazy`,
/// post-drain locals `wr` — to `propagation_spec`.
#[verifier::rlimit(100)]
proof fn finish_propagation(w0: World, wr: World, wfin: World, r: ReaderId, mset: Set<int>)
    requires
        w0.wf(),
        w0.lazy@ == Seq::<LazyOp>::empty(),
        0 <= r.id < w0.locals.reader_count(),
        mset == modified_of(w0.locals.pending(r)),
        // after the drain
        wr.entity_count == w0.entity_count,
        wr.parents == w0.parents,
        wr.prev_parents == w0.prev_parents,
        wr.children == w0.children,
        wr.globals == w0.globals,
        wr.lazy == w0.lazy,
        forall|x: int| #[trigger] wr.locals.spec_get(x) == w0.locals.spec_get(x),
        wr.locals.log() == w0.locals.log(),
        wr.locals.reader_count() == w0.locals.reader_count(),
        wr.locals.cursor(r) == w0.locals.log().len(),
        forall|q: ReaderId|
            0 <= q.id < w0.locals.reader_count() && q.id != r.id
                ==> #[trigger] wr.locals.cursor(q) == w0.locals.cursor(q),
        // after the walks
        wfin.entity_count == w0.entity_count,
        wfin.parents == w0.parents,
        wfin.prev_parents == w0.prev_parents,
        wfin.children == w0.children,
        wfin.globals == w0.globals,
        wfin.locals == wr.locals,
        wfin.wf(),
        forall|j: int|
            0 <= j < wfin.lazy@.len() ==> (#[trigger] wfin.lazy@[j]) is InsertGlobalMatrix
                && wfin.lazy@[j]->InsertGlobalMatrix_entity.index < w0.entity_count,
        forall|j1: int, j2: int|
            0 <= j1 < j2 < wfin.lazy@.len()
                ==> (#[trigger] wfin.lazy@[j1])->InsertGlobalMatrix_entity
                    != (#[trigger] wfin.lazy@[j2])->InsertGlobalMatrix_entity,
        forall|j: int| 0 <= j < wfin.lazy@.len() ==> #[trigger] edge_ok(w0, r, wfin.lazy@, j),
        forall|p: int|
            0 <= p < w0.entity_count && #[trigger] stages_global(wfin.lazy@, p as u32)
                && wfin.children.has(p) ==> closed_under(
                w0,
                wfin.lazy@,
                Seq::<(Entity, Matrix4, bool)>::empty(),
                p,
            ),
        forall|p: int|
            0 <= p < w0.entity_count && #[trigger] root_dirty(w0, r, p) && wfin.children.has(p)
                ==> closed_under(w0, wfin.lazy@, Seq::<(Entity, Matrix4, bool)>::empty(), p),
        all_unmodified(w0.locals.pending(r)) ==> wfin.lazy == w0.lazy,
    ensures
        propagation_spec(w0, wfin, r),
{
    let n = w0.entity_count as int;
    let ops = wfin.lazy@;
    let m0 = w0.model();
    let mf = wfin.model();
    let f = wfin.folded();
    assert(wfin.locals.pending(r) =~= Seq::<StorageEvent>::empty());

    // what was rewritten
    assert forall|e: int|
        0 <= e < n && #[trigger] stages_global(ops, e as u32) implies w0.locals.has(e)
            && w0.globals.has(e) && f.global.dom().contains(e) && exists|p: int|
            0 <= p < n && (#[trigger] w0.children.has(p)) && w0.child_list(p).contains(
                Entity { index: e as u32 },
            ) && ((root_dirty(w0, r, p) && product_of(
                f.global[e],
                stored_global(w0, p),
                local_view(w0, e),
            )) || (stages_global(ops, p as u32) && f.global.dom().contains(p) && product_of(
                f.global[e],
                f.global[p],
                local_view(w0, e),
            ))) by {
        let j = choose|j: int| 0 <= j < ops.len() && op_stages_global(#[trigger] ops[j], e as u32);
        assert(edge_ok(w0, r, ops, j));
        assert(ops[j]->InsertGlobalMatrix_entity == Entity { index: e as u32 });
        assert(global_op_for(ops[j], e));
        assert forall|k: int| 0 <= k < ops.len() && k != j implies !global_op_for(
            #[trigger] ops[k],
            e,
        ) by {
            if global_op_for(ops[k], e) {
                assert(ops[k]->InsertGlobalMatrix_entity == ops[j]->InsertGlobalMatrix_entity);
            }
        }
        lemma_fold_global_write(mf, ops, e, j);
        assert forall|k: int| 0 <= k < ops.len() && k != j implies !op_stages_global(
            #[trigger] ops[k],
            e as u32,
        ) by {
            if op_stages_global(ops[k], e as u32) {
                assert(ops[k]->InsertGlobalMatrix_entity == ops[j]->InsertGlobalMatrix_entity);
            }
        }
        lemma_staged_val_at(ops, e as u32, j);
        assert(f.global[e] == staged_val(ops, e as u32));
        let p = choose|p: int|
            0 <= p < w0.entity_count && (#[trigger] w0.children.has(p)) && w0.child_list(
                p,
            ).contains(ops[j]->InsertGlobalMatrix_entity) && ((root_dirty(w0, r, p)
                && product_of(
                ops[j]->InsertGlobalMatrix_matrix.0@,
                stored_global(w0, p),
                local_view(w0, e),
            )) || (stages_global(ops, p as u32) && product_of(
                ops[j]->InsertGlobalMatrix_matrix.0@,
                staged_val(ops, p as u32),
                local_view(w0, e),
            )));
        if !(root_dirty(w0, r, p) && product_of(
            ops[j]->InsertGlobalMatrix_matrix.0@,
            stored_global(w0, p),
            local_view(w0, e),
        )) {
            // the parent-side value is the staged one; identify it with
            // the folded entry of p
            let jp = choose|jp: int|
                0 <= jp < ops.len() && op_stages_global(#[trigger] ops[jp], p as u32);
            assert(global_op_for(ops[jp], p));
            assert forall|k: int| 0 <= k < ops.len() && k != jp implies !global_op_for(
                #[trigger] ops[k],
                p,
            ) by {
                if global_op_for(ops[k], p) {
                    assert(ops[k]->InsertGlobalMatrix_entity
                        == ops[jp]->InsertGlobalMatrix_entity);
                }
            }
            lemma_fold_global_write(mf, ops, p, jp);
            assert forall|k: int| 0 <= k < ops.len() && k != jp implies !op_stages_global(
                #[trigger] ops[k],
                p as u32,
            ) by {
                if op_stages_global(ops[k], p as u32) {
                    assert(ops[k]->InsertGlobalMatrix_entity
                        == ops[jp]->InsertGlobalMatrix_entity);
                }
            }
            lemma_staged_val_at(ops, p as u32, jp);
            assert(f.global[p] == staged_val(ops, p as u32));
        }
    }

    // everything so recorded was rewritten
    assert forall|p: int, t: int|
        #![trigger w0.child_list(p)[t], root_dirty(w0, r, p)]
        0 <= p < n && (root_dirty(w0, r, p) || stages_global(ops, p as u32)) && w0.children.has(
            p,
        ) && 0 <= t < w0.child_list(p).len() && w0.locals.has(w0.child_list(p)[t].index as int)
            && w0.globals.has(w0.child_list(p)[t].index as int) implies stages_global(
        ops,
        w0.child_list(p)[t].index,
    ) by {
        assert(wfin.children.has(p));
        if root_dirty(w0, r, p) {
            assert(closed_under(w0, ops, Seq::<(Entity, Matrix4, bool)>::empty(), p));
        } else {
            assert(closed_under(w0, ops, Seq::<(Entity, Matrix4, bool)>::empty(), p));
        }
    }

    // everything else keeps its global matrix
    assert forall|e: int|
        0 <= e < n && !stages_global(ops, e as u32) implies #[trigger] f.global.dom().contains(e)
            == m0.global.dom().contains(e) && (m0.global.dom().contains(e) ==> f.global[e]
            == m0.global[e]) by {
        assert forall|j: int| 0 <= j < ops.len() implies !global_op_for(#[trigger] ops[j], e) by {
            if global_op_for(ops[j], e) {
                assert(op_stages_global(ops[j], e as u32));
                assert(stages_global(ops, e as u32));
            }
        }
        lemma_fold_global_untouched(mf, ops, e);
    }
    assert forall|e: int|
        !(0 <= e < n) implies #[trigger] f.global.dom().contains(e) == m0.global.dom().contains(e)
            && (m0.global.dom().contains(e) ==> f.global[e] == m0.global[e]) by {
        assert forall|j: int| 0 <= j < ops.len() implies !global_op_for(#[trigger] ops[j], e) by {}
        lemma_fold_global_untouched(mf, ops, e);
    }

    // the hierarchy books are untouched by the queue
    assert forall|e: int|
        true implies #[trigger] f.prev.dom().contains(e) == m0.prev.dom().contains(e) && (
        m0.prev.dom().contains(e) ==> f.prev[e] == m0.prev[e]) by {
        lemma_fold_prev_untouched(mf, ops, e);
    }
    assert forall|p: int|
        true implies #[trigger] f.children.dom().contains(p) == m0.children.dom().contains(p) && (
        m0.children.dom().contains(p) ==> f.children[p] == m0.children[p]) by {
        lemma_fold_children_untouched(mf, ops, p);
    }
}

impl TransformSystem {
    /// One propagation pass: for every root whose local transform was
    /// marked dirty, walk its recorded subtree and stage the recomputed
    /// global transforms, reusing everything outside those subtrees. The
    /// guarantees are stated by `propagation_spec`.
    #[verifier::rlimit(100)]
    #[verifier::loop_isolation(false)]
    pub fn run(&mut self, w: &mut World)
        requires
            old(w).wf(),
            old(w).lazy@ == Seq::<LazyOp>::empty(),
            old(self).reader_id is Some,
            old(self).reader_id.unwrap().id < old(w).locals.reader_count(),
        ensures
            *final(self) == *old(self),
            propagation_spec(*old(w), *final(w), old(self).reader_id.unwrap()),
    {
        let r = self.reader_id.unwrap();
        let ghost w0 = *old(w);
        let ghost n_int = w0.entity_count as int;
        let ghost pend = w0.locals.pending(r);
        let ghost mset = modified_of(pend);
        let n = w.entity_count;

        let evs = w.locals.read(r);
        proof {
            assert forall|k: int| 0 <= k < evs@.len() implies (#[trigger] evs@[k]).entity
                < n by {
                assert(evs@[k] == w0.locals.log()[w0.locals.cursor(r) + k]);
            }
        }
        let mut modified: Vec<bool> = Vec::new();
        while modified.len() < n as usize
            invariant
                modified@.len() <= n as usize,
                forall|x: int| 0 <= x < modified@.len() ==> !(#[trigger] modified@[x]),
            decreases n as int - modified@.len(),
        {
            modified.push(false);
        }
        let mut k: usize = 0;
        while k < evs.len()
            invariant
                0 <= k <= evs@.len(),
                modified@.len() == n as usize,
                forall|x: int|
                    0 <= x < n ==> #[trigger] modified@[x] == modified_of(
                        evs@.take(k as int),
                    ).contains(x),
            decreases evs@.len() - k,
        {
            let ev = evs[k];
            let ghost pre_mod = modified@;
            if matches!(ev.kind, EventKind::Modified) {
                modified.set(ev.entity as usize, true);
            }
            proof {
                assert forall|x: int| 0 <= x < n implies #[trigger] modified@[x] == modified_of(
                    evs@.take(k + 1),
                ).contains(x) by {
                    assert(evs@.take(k + 1)[k as int] == evs@[k as int]);
                    if modified_of(evs@.take(k + 1)).contains(x) {
                        let kk = choose|kk: int|
                            0 <= kk < evs@.take(k + 1).len() && ((#[trigger] evs@.take(
                                k + 1,
                            )[kk]).kind == EventKind::Modified) && evs@.take(k + 1)[kk].entity
                                as int == x;
                        if kk < k {
                            assert(evs@.take(k as int)[kk] == evs@[kk]);
                            assert(modified_of(evs@.take(k as int)).contains(x));
                            assert(pre_mod[x]);
                        }
                    }
                    if modified_of(evs@.take(k as int)).contains(x) {
                        let kk = choose|kk: int|
                            0 <= kk < evs@.take(k as int).len() && ((#[trigger] evs@.take(
                                k as int,
                            )[kk]).kind == EventKind::Modified) && evs@.take(k as int)[kk].entity
                                as int == x;
                        assert(evs@.take(k + 1)[kk] == evs@[kk]);
                        assert(modified_of(evs@.take(k + 1)).contains(x));
                    }
                    if pre_mod[x] {
                        assert(modified_of(evs@.take(k as int)).contains(x));
                    }
                }
            }
            k = k + 1;
        }
        proof {
            assert(evs@.take(evs@.len() as int) =~= evs@);
        }
        let ghost wr = *w;
        let mut visited: Vec<bool> = Vec::new();
        while visited.len() < n as usize
            invariant
                visited@.len() <= n as usize,
                forall|x: int| 0 <= x < visited@.len() ==> !(#[trigger] visited@[x]),
            decreases n as int - visited@.len(),
        {
            visited.push(false);
        }

        let mut i: u32 = 0;
        while i < n
            invariant
                0 <= i <= n,
                w.entity_count == n,
                n == w0.entity_count,
                w.parents == w0.parents,
                w.prev_parents == w0.prev_parents,
                w.children == w0.children,
                w.globals == w0.globals,
                w.locals == wr.locals,
                w.wf(),
                modified@.len() == n as usize,
                forall|x: int| 0 <= x < n ==> #[trigger] modified@[x] == mset.contains(x),
                visited@.len() == n as usize,
                forall|x: int|
                    0 <= x < n && visited@[x] && w0.locals.has(x) && w0.globals.has(x)
                        ==> #[trigger] stages_global(w.lazy@, x as u32),
                forall|j: int|
                    0 <= j < w.lazy@.len() ==> (#[trigger] w.lazy@[j]) is InsertGlobalMatrix
                        && w.lazy@[j]->InsertGlobalMatrix_entity.index < n
                        && visited@[w.lazy@[j]->InsertGlobalMatrix_entity.index as int],
                forall|j1: int, j2: int|
                    0 <= j1 < j2 < w.lazy@.len()
                        ==> (#[trigger] w.lazy@[j1])->InsertGlobalMatrix_entity
                            != (#[trigger] w.lazy@[j2])->InsertGlobalMatrix_entity,
                forall|j: int| 0 <= j < w.lazy@.len() ==> #[trigger] edge_ok(w0, r, w.lazy@, j),
                forall|p: int|
                    0 <= p < n && #[trigger] stages_global(w.lazy@, p as u32) && w.children.has(
                        p,
                    ) ==> closed_under(w0, w.lazy@, Seq::empty(), p),
                forall|p: int|
                    0 <= p < i && #[trigger] root_dirty(w0, r, p) && w.children.has(p)
                        ==> closed_under(w0, w.lazy@, Seq::empty(), p),
                all_unmodified(pend) ==> w.lazy == w0.lazy,
            decreases n - i,
        {
            let is_mod = modified[i as usize];
            let has_l = w.locals.get(i).is_some();
            let g_opt: Option<Matrix4> = match w.globals.get(i) {
                Some(g) => Some(g.0),
                None => None,
            };
            let par_none = w.parents.get(i).is_none();
            if is_mod && has_l && g_opt.is_some() && par_none {
                let g0 = g_opt.unwrap();
                proof {
                    assert(root_dirty(w0, r, i as int));
                    assert(g0@ == stored_global(w0, i as int));
                }
                let list_opt: Option<crate::children::Children> = match w.children.get(i) {
                    Some(list) => Some(list.duplicate()),
                    None => None,
                };
                if let Some(list) = list_opt {
                    let ghost root = i as int;
                    let mut stack: Vec<(Entity, Matrix4, bool)> = Vec::new();
                    let len0 = list.len();
                    let mut t: usize = 0;
                    while t < len0
                        invariant
                            0 <= t <= len0,
                            len0 == w0.child_list(root).len(),
                            list@ == w0.child_list(root),
                            stack@.len() == t,
                            forall|u: int|
                                0 <= u < t ==> #[trigger] stack@[u] == (
                                w0.child_list(root)[u],
                                g0,
                                true,
                            ),
                        decreases len0 - t,
                    {
                        stack.push((list.get(t), g0, true));
                        t = t + 1;
                    }
                    proof {
                        assert forall|u: int| 0 <= u < stack@.len() implies entry_src_ok(
                            w0,
                            r,
                            w.lazy@,
                            #[trigger] stack@[u],
                        ) by {
                            assert(stack@[u] == (w0.child_list(root)[u], g0, true));
                            assert(w0.child_list(root).contains(w0.child_list(root)[u]));
                            assert(w0.child_list(root)[u].index < w0.entity_count);
                            assert(0 <= root < w0.entity_count && w0.children.has(root)
                                && w0.child_list(root).contains(stack@[u].0) && root_dirty(
                                w0,
                                r,
                                root,
                            ) && stack@[u].1@ == stored_global(w0, root));
                        }
                        assert(closed_under(w0, w.lazy@, stack@, root)) by {
                            assert forall|u: int|
                                0 <= u < w0.child_list(root).len() && w0.locals.has(
                                    (#[trigger] w0.child_list(root)[u]).index as int,
                                ) && w0.globals.has(w0.child_list(root)[u].index as int)
                                implies stages_global(
                                w.lazy@,
                                w0.child_list(root)[u].index,
                            ) || in_stack(stack@, w0.child_list(root)[u]) by {
                                assert(stack@[u].0 == w0.child_list(root)[u]);
                            }
                        }
                    }
                    while stack.len() > 0
                        invariant
                            w.entity_count == n,
                            n == w0.entity_count,
                            w.parents == w0.parents,
                            w.prev_parents == w0.prev_parents,
                            w.children == w0.children,
                            w.globals == w0.globals,
                            w.locals == wr.locals,
                            w.wf(),
                            modified@.len() == n as usize,
                            forall|x: int|
                                0 <= x < n ==> #[trigger] modified@[x] == mset.contains(x),
                            visited@.len() == n as usize,
                            forall|x: int|
                                0 <= x < n && visited@[x] && w0.locals.has(x) && w0.globals.has(
                                    x,
                                ) ==> #[trigger] stages_global(w.lazy@, x as u32),
                            root_dirty(w0, r, root),
                            w0.children.has(root),
                            forall|j: int|
                                0 <= j < w.lazy@.len()
                                    ==> (#[trigger] w.lazy@[j]) is InsertGlobalMatrix
                                        && w.lazy@[j]->InsertGlobalMatrix_entity.index < n
                                        && visited@[w.lazy@[j]->InsertGlobalMatrix_entity.index
                                            as int],
                            forall|j1: int, j2: int|
                                0 <= j1 < j2 < w.lazy@.len()
                                    ==> (#[trigger] w.lazy@[j1])->InsertGlobalMatrix_entity
                                        != (#[trigger] w.lazy@[j2])->InsertGlobalMatrix_entity,
                            forall|j: int|
                                0 <= j < w.lazy@.len() ==> #[trigger] edge_ok(w0, r, w.lazy@, j),
                            forall|u: int|
                                0 <= u < stack@.len() ==> entry_src_ok(
                                    w0,
                                    r,
                                    w.lazy@,
                                    #[trigger] stack@[u],
                                ),
                            forall|p: int|
                                0 <= p < n && #[trigger] stages_global(w.lazy@, p as u32)
                                    && w.children.has(p) ==> closed_under(w0, w.lazy@, stack@, p),
                            closed_under(w0, w.lazy@, stack@, root),
                            forall|p: int|
                                0 <= p < i && #[trigger] root_dirty(w0, r, p) && w.children.has(
                                    p,
                                ) && p != root ==> closed_under(w0, w.lazy@, Seq::empty(), p),
                            all_unmodified(pend) ==> w.lazy == w0.lazy,
                        decreases count_false(visited@), stack@.len(),
                    {
                        let ghost pre_stack = stack@;
                        let ghost pre_ops = w.lazy@;
                        let ghost pre_visited = visited@;
                        let top = stack.pop().unwrap();
                        let (c, pg, chg) = top;
                        proof {
                            assert(pre_stack[pre_stack.len() - 1] == top);
                            assert(entry_src_ok(w0, r, pre_ops, top));
                            assert(stack@ =~= pre_stack.drop_last());
                        }
                        if !visited[c.index as usize] {
                            visited.set(c.index as usize, true);
                            proof {
                                lemma_count_false_update(pre_visited, c.index as int);
                            }
                            let l_opt: Option<Matrix4> = match w.locals.get(c.index) {
                                Some(l) => Some(l.0),
                                None => None,
                            };
                            let g_opt2: Option<Matrix4> = match w.globals.get(c.index) {
                                Some(g) => Some(g.0),
                                None => None,
                            };
                            if l_opt.is_some() && g_opt2.is_some() {
                                let chg2 = chg || modified[c.index as usize];
                                let gnew: Matrix4;
                                if chg2 {
                                    let lm = l_opt.unwrap();
                                    gnew = mat4_mul(&pg, &lm);
                                    w.lazy.push(
                                        LazyOp::InsertGlobalMatrix {
                                            entity: c,
                                            matrix: GlobalMatrix(gnew),
                                        },
                                    );
                                } else {
                                    gnew = g_opt2.unwrap();
                                }
                                proof {
                                    assert(w.lazy@ == pre_ops.push(w.lazy@[w.lazy@.len() - 1]));
                                    assert(forall|j: int|
                                        0 <= j < pre_ops.len() ==> #[trigger] w.lazy@[j]
                                            == pre_ops[j]);
                                    assert(!stages_global(pre_ops, c.index)) by {
                                        if stages_global(pre_ops, c.index) {
                                            let j = choose|j: int|
                                                0 <= j < pre_ops.len() && op_stages_global(
                                                    #[trigger] pre_ops[j],
                                                    c.index,
                                                );
                                            assert(pre_visited[pre_ops[j]->InsertGlobalMatrix_entity.index
                                                as int]);
                                        }
                                    }
                                    assert(op_stages_global(w.lazy@[w.lazy@.len() - 1], c.index));
                                    assert(stages_global(w.lazy@, c.index));
                                    assert forall|e2: u32| stages_global(pre_ops, e2)
                                        implies stages_global(w.lazy@, e2) && staged_val(
                                        w.lazy@,
                                        e2,
                                    ) == staged_val(pre_ops, e2) by {
                                        lemma_staged_val_grow(pre_ops, w.lazy@, e2);
                                    }
                                    assert(staged_val(w.lazy@, c.index) == gnew@) by {
                                        lemma_staged_val_at(
                                            w.lazy@,
                                            c.index,
                                            w.lazy@.len() - 1,
                                        );
                                    }
                                    // the new op records a proper edge
                                    assert(edge_ok(w0, r, w.lazy@, w.lazy@.len() - 1)) by {
                                        assert(product_of(gnew@, pg@, l_opt.unwrap()@));
                                        let p = choose|p: int|
                                            0 <= p < w0.entity_count && (
                                            #[trigger] w0.children.has(p)) && w0.child_list(
                                                p,
                                            ).contains(c) && ((root_dirty(w0, r, p) && pg@
                                                == stored_global(w0, p)) || (stages_global(
                                                pre_ops,
                                                p as u32,
                                            ) && pg@ == staged_val(pre_ops, p as u32)));
                                        if stages_global(pre_ops, p as u32) && pg@ == staged_val(
                                            pre_ops,
                                            p as u32,
                                        ) {
                                            lemma_staged_val_grow(pre_ops, w.lazy@, p as u32);
                                        }
                                    }
                                    assert forall|j: int| 0 <= j < w.lazy@.len() implies
                                        #[trigger] edge_ok(w0, r, w.lazy@, j) by {
                                        if j < pre_ops.len() {
                                            assert(edge_ok(w0, r, pre_ops, j));
                                            let p = choose|p: int|
                                                0 <= p < w0.entity_count && (
                                                #[trigger] w0.children.has(p)) && w0.child_list(
                                                    p,
                                                ).contains(
                                                    pre_ops[j]->InsertGlobalMatrix_entity,
                                                ) && ((root_dirty(w0, r, p) && product_of(
                                                    pre_ops[j]->InsertGlobalMatrix_matrix.0@,
                                                    stored_global(w0, p),
                                                    local_view(
                                                        w0,
                                                        pre_ops[j]->InsertGlobalMatrix_entity.index
                                                            as int,
                                                    ),
                                                )) || (stages_global(pre_ops, p as u32)
                                                    && product_of(
                                                    pre_ops[j]->InsertGlobalMatrix_matrix.0@,
                                                    staged_val(pre_ops, p as u32),
                                                    local_view(
                                                        w0,
                                                        pre_ops[j]->InsertGlobalMatrix_entity.index
                                                            as int,
                                                    ),
                                                )));
                                            if stages_global(pre_ops, p as u32) {
                                                lemma_staged_val_grow(pre_ops, w.lazy@, p as u32);
                                            }
                                        }
                                    }
                                }
                                // recurse into the children of c
                                let cl_opt: Option<crate::children::Children> =
                                    match w.children.get(c.index) {
                                    Some(cl) => Some(cl.duplicate()),
                                    None => None,
                                };
                                let ghost mid_stack = stack@;
                                if let Some(cl) = cl_opt {
                                    let ghost cx = c.index as int;
                                    let len1 = cl.len();
                                    let mut t2: usize = 0;
                                    while t2 < len1
                                        invariant
                                            0 <= t2 <= len1,
                                            len1 == w0.child_list(cx).len(),
                                            cl@ == w0.child_list(cx),
                                            stack@.len() == mid_stack.len() + t2,
                                            forall|u: int|
                                                0 <= u < mid_stack.len()
                                                    ==> #[trigger] stack@[u] == mid_stack[u],
                                            forall|u: int|
                                                0 <= u < t2
                                                    ==> #[trigger] stack@[mid_stack.len() + u]
                                                    == (w0.child_list(cx)[u], gnew, chg2),
                                        decreases len1 - t2,
                                    {
                                        stack.push((cl.get(t2), gnew, chg2));
                                        t2 = t2 + 1;
                                    }
                                }
                                proof {
                                    let ops2 = w.lazy@;
                                    // every stack entry still names a proper source
                                    assert forall|u: int| 0 <= u < stack@.len()
                                        implies entry_src_ok(
                                        w0,
                                        r,
                                        ops2,
                                        #[trigger] stack@[u],
                                    ) by {
                                        if u < mid_stack.len() {
                                            assert(mid_stack[u] == pre_stack[u]);
                                            assert(entry_src_ok(w0, r, pre_ops, stack@[u]));
                                            let p = choose|p: int|
                                                0 <= p < w0.entity_count && (
                                                #[trigger] w0.children.has(p)) && w0.child_list(
                                                    p,
                                                ).contains(stack@[u].0) && ((root_dirty(w0, r, p)
                                                    && stack@[u].1@ == stored_global(w0, p)) || (
                                                stages_global(pre_ops, p as u32) && stack@[u].1@
                                                    == staged_val(pre_ops, p as u32)));
                                            if stages_global(pre_ops, p as u32) {
                                                lemma_staged_val_grow(pre_ops, ops2, p as u32);
                                            }
                                        } else {
                                            let v = u - mid_stack.len();
                                            assert(stack@[mid_stack.len() + v] == (
                                                w0.child_list(c.index as int)[v],
                                                gnew,
                                                chg2,
                                            ));
                                            assert(stack@[u].1 == gnew);
                                            assert(stack@[u].1@ == staged_val(ops2, c.index));
                                            assert(w0.child_list(c.index as int).contains(
                                                stack@[u].0,
                                            ));
                                            assert(w0.children.has(c.index as int));
                                            assert(stack@[u].0.index < w0.entity_count);
                                            assert(0 <= c.index as int
                                                && (c.index as int) < w0.entity_count
                                                && w0.children.has(c.index as int)
                                                && w0.child_list(c.index as int).contains(
                                                stack@[u].0,
                                            ) && stages_global(ops2, c.index) && stack@[u].1@
                                                == staged_val(ops2, c.index));
                                        }
                                    }
                                    // closure still holds for every staged parent
                                    assert forall|p: int|
                                        0 <= p < n && #[trigger] stages_global(ops2, p as u32)
                                            && w.children.has(p) implies closed_under(
                                        w0,
                                        ops2,
                                        stack@,
                                        p,
                                    ) by {
                                        if p == c.index as int {
                                            assert forall|u: int|
                                                0 <= u < w0.child_list(p).len() && w0.locals.has(
                                                    (#[trigger] w0.child_list(p)[u]).index as int,
                                                ) && w0.globals.has(
                                                    w0.child_list(p)[u].index as int,
                                                ) implies stages_global(
                                                ops2,
                                                w0.child_list(p)[u].index,
                                            ) || in_stack(stack@, w0.child_list(p)[u]) by {
                                                assert(stack@[mid_stack.len() + u]
                                                    == (w0.child_list(p)[u], gnew, chg2));
                                                assert(in_stack(stack@, w0.child_list(p)[u]));
                                            }
                                        } else {
                                            assert(stages_global(pre_ops, p as u32)) by {
                                                let j = choose|j: int|
                                                    0 <= j < ops2.len() && op_stages_global(
                                                        #[trigger] ops2[j],
                                                        p as u32,
                                                    );
                                                if j == ops2.len() - 1 {
                                                    assert(p == c.index as int);
                                                }
                                            }
                                            assert(closed_under(w0, pre_ops, pre_stack, p));
                                            closure_after_pop(
                                                w0,
                                                r,
                                                pre_ops,
                                                ops2,
                                                pre_stack,
                                                mid_stack,
                                                stack@,
                                                c,
                                                p,
                                            );
                                        }
                                    }
                                    assert(closed_under(w0, ops2, stack@, root)) by {
                                        closure_after_pop(
                                            w0,
                                            r,
                                            pre_ops,
                                            ops2,
                                            pre_stack,
                                            mid_stack,
                                            stack@,
                                            c,
                                            root,
                                        );
                                    }
                                }
                                proof {
                                    assert forall|x: int|
                                        0 <= x < n && visited@[x] && w0.locals.has(x)
                                            && w0.globals.has(x) implies stages_global(
                                        w.lazy@,
                                        x as u32,
                                    ) by {
                                        if x == c.index as int {
                                            assert(x as u32 == c.index);
                                        } else {
                                            assert(pre_visited[x]);
                                            assert(stages_global(pre_ops, x as u32));
                                        }
                                    }
                                }
                            } else {
                                // the walk silently skips entities missing a
                                // transform component
                                proof {
                                    assert forall|x: int|
                                        0 <= x < n && visited@[x] && w0.locals.has(x)
                                            && w0.globals.has(x) implies stages_global(
                                        w.lazy@,
                                        x as u32,
                                    ) by {
                                        if x != c.index as int {
                                            assert(pre_visited[x]);
                                        }
                                    }
                                    assert forall|p: int|
                                        0 <= p < n && #[trigger] stages_global(
                                            w.lazy@,
                                            p as u32,
                                        ) && w.children.has(p) implies closed_under(
                                        w0,
                                        w.lazy@,
                                        stack@,
                                        p,
                                    ) by {
                                        skip_keeps_closure(w0, r, w.lazy@, pre_stack, stack@, c, p);
                                    }
                                    assert(closed_under(w0, w.lazy@, stack@, root)) by {
                                        skip_keeps_closure(
                                            w0,
                                            r,
                                            w.lazy@,
                                            pre_stack,
                                            stack@,
                                            c,
                                            root,
                                        );
                                    }
                                }
                            }
                        } else {
                            proof {
                                assert(w0.locals.has(c.index as int) && w0.globals.has(
                                    c.index as int,
                                ) ==> stages_global(w.lazy@, c.index)) by {
                                    assert(visited@[c.index as int]);
                                    assert((c.index as int) as u32 == c.index);
                                }
                                assert forall|p: int|
                                    0 <= p < n && #[trigger] stages_global(w.lazy@, p as u32)
                                        && w.children.has(p) implies closed_under(
                                    w0,
                                    w.lazy@,
                                    stack@,
                                    p,
                                ) by {
                                    skip_keeps_closure(w0, r, w.lazy@, pre_stack, stack@, c, p);
                                }
                                assert(closed_under(w0, w.lazy@, stack@, root)) by {
                                    skip_keeps_closure(w0, r, w.lazy@, pre_stack, stack@, c, root);
                                }
                            }
                        }
                    }
                }
            }
            proof {
                assert forall|p: int|
                    0 <= p < i + 1 && #[trigger] root_dirty(w0, r, p) && w.children.has(p)
                    implies closed_under(w0, w.lazy@, Seq::<(Entity, Matrix4, bool)>::empty(), p)
                    by {
                    if p == i as int {
                        assert(modified@[p]);
                    }
                }
            }
            i = i + 1;
        }
        proof {
            finish_propagation(w0, wr, *w, r, mset);
        }
    }
}

} // verus!
