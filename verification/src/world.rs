//! The component store: one storage per component kind, a pool of entity
//! indices, and the deferred-mutation queue.
//!
//! Systems that iterate a storage may not mutate it at the same time, so
//! they stage such writes as `LazyOp`s; `apply_lazy` is the barrier that
//! applies the staged mutations, in order, between two systems. The spec
//! side mirrors this with `WorldModel` and `apply_ops`: the state a world
//! will reach once its queue is flushed.

use vstd::prelude::*;

use crate::children::Children;
use crate::children::small_vec_view;
use crate::entity::Entity;
use crate::hierarchy::Parent;
use crate::hierarchy::PreviousParent;
use crate::matrix::Matrix4;
use crate::storage::ReaderId;
use crate::storage::Storage;
use crate::storage::StorageEvent;
use crate::transform::GlobalMatrix;
use crate::transform::LocalMatrix;

verus! {

/// A staged mutation, applied at the next barrier.
pub enum LazyOp {
    InsertPreviousParent { entity: Entity, parent: Entity },
    RemovePreviousParent { entity: Entity },
    InsertChildren { entity: Entity, list: Children },
    InsertGlobalMatrix { entity: Entity, matrix: GlobalMatrix },
}

/// The mathematical view of the storages the deferred queue can touch:
/// previous-parent pointers, child lists, and global transforms, each as
/// a partial map over entity indices.
#[verifier::ext_equal]
pub struct WorldModel {
    pub prev: Map<int, int>,
    pub children: Map<int, Seq<Entity>>,
    pub global: Map<int, Seq<u32>>,
}

/// The effect of one staged mutation on the model.
pub open spec fn apply_one(m: WorldModel, op: LazyOp) -> WorldModel {
    match op {
        LazyOp::InsertPreviousParent { entity, parent } => WorldModel {
            prev: m.prev.insert(entity.index as int, parent.index as int),
            ..m
        },
        LazyOp::RemovePreviousParent { entity } => WorldModel {
            prev: m.prev.remove(entity.index as int),
            ..m
        },
        LazyOp::InsertChildren { entity, list } => WorldModel {
            children: m.children.insert(entity.index as int, small_vec_view(list)),
            ..m
        },
        LazyOp::InsertGlobalMatrix { entity, matrix } => WorldModel {
            global: m.global.insert(entity.index as int, matrix.0@),
            ..m
        },
    }
}

/// The effect of a whole queue, applied front to back.
pub open spec fn apply_ops(m: WorldModel, ops: Seq<LazyOp>) -> WorldModel
    decreases ops.len(),
{
    if ops.len() == 0 {
        m
    } else {
        apply_ops(apply_one(m, ops[0]), ops.drop_first())
    }
}

/// Folding one more op at the back applies it to the folded state.
pub proof fn lemma_apply_ops_push(m: WorldModel, ops: Seq<LazyOp>, op: LazyOp)
    ensures
        apply_ops(m, ops.push(op)) == apply_one(apply_ops(m, ops), op),
    decreases ops.len(),
{
    if ops.len() == 0 {
        assert(ops.push(op)[0] == op);
        assert(ops.push(op).drop_first() =~= ops);
        assert(apply_ops(apply_one(m, op), ops.push(op).drop_first()) == apply_one(m, op));
        assert(apply_ops(m, ops.push(op)) == apply_one(m, op));
        assert(apply_ops(m, ops) == m);
    } else {
        assert(ops.push(op)[0] == ops[0]);
        assert(ops.push(op).drop_first() =~= ops.drop_first().push(op));
        lemma_apply_ops_push(apply_one(m, ops[0]), ops.drop_first(), op);
        assert(apply_ops(m, ops.push(op))
            == apply_ops(apply_one(m, ops[0]), ops.drop_first().push(op)));
    }
}

/// Whether `op` writes the previous-parent cache of entity index `e`.
pub open spec fn prev_op_for(op: LazyOp, e: int) -> bool {
    match op {
        LazyOp::InsertPreviousParent { entity, parent: _ } => entity.index as int == e,
        LazyOp::RemovePreviousParent { entity } => entity.index as int == e,
        _ => false,
    }
}

/// Whether `op` writes the child list of entity index `p`.
pub open spec fn children_op_for(op: LazyOp, p: int) -> bool {
    op matches LazyOp::InsertChildren { entity, list: _ } && entity.index as int == p
}

/// Whether `op` writes the global matrix of entity index `e`.
pub open spec fn global_op_for(op: LazyOp, e: int) -> bool {
    op matches LazyOp::InsertGlobalMatrix { entity, matrix: _ } && entity.index as int == e
}

/// A queue with no op for `e` leaves `e`'s previous-parent entry alone.
pub proof fn lemma_fold_prev_untouched(m: WorldModel, ops: Seq<LazyOp>, e: int)
    requires
        forall|j: int| 0 <= j < ops.len() ==> !prev_op_for(#[trigger] ops[j], e),
    ensures
        apply_ops(m, ops).prev.dom().contains(e) == m.prev.dom().contains(e),
        m.prev.dom().contains(e) ==> apply_ops(m, ops).prev[e] == m.prev[e],
    decreases ops.len(),
{
    if ops.len() > 0 {
        let m1 = apply_one(m, ops[0]);
        assert(!prev_op_for(ops[0], e));
        assert(m1.prev.dom().contains(e) == m.prev.dom().contains(e));
        assert(m.prev.dom().contains(e) ==> m1.prev[e] == m.prev[e]);
        assert(forall|j: int| 0 <= j < ops.drop_first().len()
            ==> #[trigger] ops.drop_first()[j] == ops[j + 1]);
        lemma_fold_prev_untouched(m1, ops.drop_first(), e);
    }
}

/// The last op writing `e`'s previous-parent entry decides it.
pub proof fn lemma_fold_prev_write(m: WorldModel, ops: Seq<LazyOp>, e: int, j: int)
    requires
        0 <= j < ops.len(),
        prev_op_for(ops[j], e),
        forall|k: int| j < k < ops.len() ==> !prev_op_for(#[trigger] ops[k], e),
    ensures
        match ops[j] {
            LazyOp::InsertPreviousParent { entity: _, parent } => apply_ops(m, ops).prev.dom()
                .contains(e) && apply_ops(m, ops).prev[e] == parent.index as int,
            LazyOp::RemovePreviousParent { entity: _ } => !apply_ops(m, ops).prev.dom()
                .contains(e),
            _ => true,
        },
    decreases j,
{
    let m1 = apply_one(m, ops[0]);
    assert(forall|k: int| 0 <= k < ops.drop_first().len()
        ==> #[trigger] ops.drop_first()[k] == ops[k + 1]);
    if j == 0 {
        lemma_fold_prev_untouched(m1, ops.drop_first(), e);
    } else {
        lemma_fold_prev_write(m1, ops.drop_first(), e, j - 1);
    }
}

/// A queue with no op for `p` leaves `p`'s child list alone.
pub proof fn lemma_fold_children_untouched(m: WorldModel, ops: Seq<LazyOp>, p: int)
    requires
        forall|j: int| 0 <= j < ops.len() ==> !children_op_for(#[trigger] ops[j], p),
    ensures
        apply_ops(m, ops).children.dom().contains(p) == m.children.dom().contains(p),
        m.children.dom().contains(p) ==> apply_ops(m, ops).children[p] == m.children[p],
    decreases ops.len(),
{
    if ops.len() > 0 {
        let m1 = apply_one(m, ops[0]);
        assert(!children_op_for(ops[0], p));
        assert(forall|j: int| 0 <= j < ops.drop_first().len()
            ==> #[trigger] ops.drop_first()[j] == ops[j + 1]);
        lemma_fold_children_untouched(m1, ops.drop_first(), p);
    }
}

/// The last op writing `p`'s child list decides it.
pub proof fn lemma_fold_children_write(m: WorldModel, ops: Seq<LazyOp>, p: int, j: int)
    requires
        0 <= j < ops.len(),
        children_op_for(ops[j], p),
        forall|k: int| j < k < ops.len() ==> !children_op_for(#[trigger] ops[k], p),
    ensures
        match ops[j] {
            LazyOp::InsertChildren { entity: _, list } => apply_ops(m, ops).children.dom()
                .contains(p) && apply_ops(m, ops).children[p] == small_vec_view(list),
            _ => true,
        },
    decreases j,
{
    let m1 = apply_one(m, ops[0]);
    assert(forall|k: int| 0 <= k < ops.drop_first().len()
        ==> #[trigger] ops.drop_first()[k] == ops[k + 1]);
    if j == 0 {
        lemma_fold_children_untouched(m1, ops.drop_first(), p);
    } else {
        lemma_fold_children_write(m1, ops.drop_first(), p, j - 1);
    }
}

/// A queue with no op for `e` leaves `e`'s global matrix alone.
pub proof fn lemma_fold_global_untouched(m: WorldModel, ops: Seq<LazyOp>, e: int)
    requires
        forall|j: int| 0 <= j < ops.len() ==> !global_op_for(#[trigger] ops[j], e),
    ensures
        apply_ops(m, ops).global.dom().contains(e) == m.global.dom().contains(e),
        m.global.dom().contains(e) ==> apply_ops(m, ops).global[e] == m.global[e],
    decreases ops.len(),
{
    if ops.len() > 0 {
        let m1 = apply_one(m, ops[0]);
        assert(!global_op_for(ops[0], e));
        assert(forall|j: int| 0 <= j < ops.drop_first().len()
            ==> #[trigger] ops.drop_first()[j] == ops[j + 1]);
        lemma_fold_global_untouched(m1, ops.drop_first(), e);
    }
}

/// The last op writing `e`'s global matrix decides it.
pub proof fn lemma_fold_global_write(m: WorldModel, ops: Seq<LazyOp>, e: int, j: int)
    requires
        0 <= j < ops.len(),
        global_op_for(ops[j], e),
        forall|k: int| j < k < ops.len() ==> !global_op_for(#[trigger] ops[k], e),
    ensures
        match ops[j] {
            LazyOp::InsertGlobalMatrix { entity: _, matrix } => apply_ops(m, ops).global.dom()
                .contains(e) && apply_ops(m, ops).global[e] == matrix.0@,
            _ => true,
        },
    decreases j,
{
    let m1 = apply_one(m, ops[0]);
    assert(forall|k: int| 0 <= k < ops.drop_first().len()
        ==> #[trigger] ops.drop_first()[k] == ops[k + 1]);
    if j == 0 {
        lemma_fold_global_untouched(m1, ops.drop_first(), e);
    } else {
        lemma_fold_global_write(m1, ops.drop_first(), e, j - 1);
    }
}

/// Every member of every child list of the map lies below `n`.
pub open spec fn children_map_bounded(ch: Map<int, Seq<Entity>>, n: int) -> bool {
    forall|p: int, i: int|
        ch.dom().contains(p) && 0 <= i < ch[p].len() ==> (#[trigger] ch[p][i]).index < n
}

/// Folding bounded ops over a bounded map keeps every child list bounded.
pub proof fn lemma_fold_children_bounded(m: WorldModel, ops: Seq<LazyOp>, n: int)
    requires
        children_map_bounded(m.children, n),
        forall|j: int| 0 <= j < ops.len() ==> op_bounded(#[trigger] ops[j], n),
    ensures
        children_map_bounded(apply_ops(m, ops).children, n),
    decreases ops.len(),
{
    if ops.len() > 0 {
        let m1 = apply_one(m, ops[0]);
        assert(children_map_bounded(m1.children, n)) by {
            assert(op_bounded(ops[0], n));
            assert forall|p: int, i: int|
                m1.children.dom().contains(p) && 0 <= i < m1.children[p].len()
                implies (#[trigger] m1.children[p][i]).index < n by {
                if m.children.dom().contains(p) && m1.children[p] == m.children[p] {
                    assert(m.children[p][i].index < n);
                }
            }
        }
        assert(forall|j: int| 0 <= j < ops.drop_first().len()
            ==> #[trigger] ops.drop_first()[j] == ops[j + 1]);
        lemma_fold_children_bounded(m1, ops.drop_first(), n);
    }
}

/// Whether `op` stages a global-matrix write for entity index `e`.
pub open spec fn op_stages_global(op: LazyOp, e: u32) -> bool {
    op matches LazyOp::InsertGlobalMatrix { entity, matrix: _ } && entity.index == e
}

/// Whether some op in the queue stages a global-matrix write for `e`.
pub open spec fn stages_global(ops: Seq<LazyOp>, e: u32) -> bool {
    exists|j: int| 0 <= j < ops.len() && op_stages_global(#[trigger] ops[j], e)
}

/// Every entity inside a staged child list lies below `n`.
pub open spec fn op_bounded(op: LazyOp, n: int) -> bool {
    match op {
        LazyOp::InsertChildren { entity: _, list } => forall|i: int|
            0 <= i < small_vec_view(list).len()
                ==> (#[trigger] small_vec_view(list)[i]).index < n,
        _ => true,
    }
}

/// The entity set and component storages, with the deferred queue.
pub struct World {
    pub entity_count: u32,
    pub parents: Storage<Parent>,
    pub prev_parents: Storage<PreviousParent>,
    pub children: Storage<Children>,
    pub locals: Storage<LocalMatrix>,
    pub globals: Storage<GlobalMatrix>,
    pub lazy: Vec<LazyOp>,
}

impl World {
    /// The parent of entity index `e`, as an index.
    pub open spec fn parent_index(self, e: int) -> Option<int> {
        match self.parents.spec_get(e) {
            Some(p) => Some(p.0.index as int),
            None => None,
        }
    }

    /// The cached previous parent of entity index `e`, as an index.
    pub open spec fn prev_index(self, e: int) -> Option<int> {
        match self.prev_parents.spec_get(e) {
            Some(p) => Some(p.0.index as int),
            None => None,
        }
    }

    /// The mathematical view of the lazily-mutable storages.
    pub open spec fn model(self) -> WorldModel {
        WorldModel {
            prev: Map::new(
                |e: int| self.prev_parents.has(e),
                |e: int| self.prev_parents.spec_get(e).unwrap().0.index as int,
            ),
            children: Map::new(
                |e: int| self.children.has(e),
                |e: int| small_vec_view(self.children.spec_get(e).unwrap()),
            ),
            global: Map::new(
                |e: int| self.globals.has(e),
                |e: int| self.globals.spec_get(e).unwrap().0@,
            ),
        }
    }

    /// The state this world will reach once its queue is flushed.
    pub open spec fn folded(self) -> WorldModel {
        apply_ops(self.model(), self.lazy@)
    }

    /// The contents of the stored child list of `p`.
    pub open spec fn child_list(self, p: int) -> Seq<Entity> {
        small_vec_view(self.children.spec_get(p).unwrap())
    }

    /// The child lists a world holds, with every member below `n`.
    pub open spec fn children_bounded(self, n: int) -> bool {
        forall|e: int, i: int|
            self.children.has(e) && 0 <= i < small_vec_view(self.children.spec_get(e).unwrap()).len()
                ==> (#[trigger] small_vec_view(self.children.spec_get(e).unwrap())[i]).index < n
    }

    /// Validity: cursors point into their logs, the logs the two systems
    /// watch name only existing entities, and so does every child list,
    /// stored or staged.
    pub open spec fn wf(self) -> bool {
        &&& self.parents.wf()
        &&& self.prev_parents.wf()
        &&& self.children.wf()
        &&& self.locals.wf()
        &&& self.globals.wf()
        &&& forall|k: int| 0 <= k < self.parents.log().len()
            ==> (#[trigger] self.parents.log()[k]).entity < self.entity_count
        &&& forall|k: int| 0 <= k < self.locals.log().len()
            ==> (#[trigger] self.locals.log()[k]).entity < self.entity_count
        &&& self.children_bounded(self.entity_count as int)
        &&& forall|i: int| 0 <= i < self.lazy@.len()
            ==> op_bounded(#[trigger] self.lazy@[i], self.entity_count as int)
    }

    /// A world with no entities, no components, and an empty queue.
    pub fn new() -> (w: World)
        ensures
            w.wf(),
            w.entity_count == 0,
            w.lazy@ == Seq::<LazyOp>::empty(),
            forall|e: int| !(#[trigger] w.parents.has(e)),
            forall|e: int| !(#[trigger] w.prev_parents.has(e)),
            forall|e: int| !(#[trigger] w.children.has(e)),
            forall|e: int| !(#[trigger] w.locals.has(e)),
            forall|e: int| !(#[trigger] w.globals.has(e)),
            w.parents.log() == Seq::<StorageEvent>::empty(),
            w.locals.log() == Seq::<StorageEvent>::empty(),
            w.parents.reader_count() == 0,
            w.locals.reader_count() == 0,
            w.globals.reader_count() == 0,
    {
        World {
            entity_count: 0,
            parents: Storage::new(),
            prev_parents: Storage::new(),
            children: Storage::new(),
            locals: Storage::new(),
            globals: Storage::new(),
            lazy: Vec::new(),
        }
    }

    /// Mint a fresh entity identifier; it carries no components yet.
    pub fn create_entity(&mut self) -> (e: Entity)
        requires
            old(self).entity_count < u32::MAX,
        ensures
            e.index == old(self).entity_count,
            final(self).entity_count == old(self).entity_count + 1,
            final(self).parents == old(self).parents,
            final(self).prev_parents == old(self).prev_parents,
            final(self).children == old(self).children,
            final(self).locals == old(self).locals,
            final(self).globals == old(self).globals,
            final(self).lazy == old(self).lazy,
            old(self).wf() ==> final(self).wf(),
    {
        let e = Entity { index: self.entity_count };
        self.entity_count = self.entity_count + 1;
        e
    }

    /// Set the `Parent` of `e` to `p`, through the storage so that the
    /// change is logged for the maintenance system. Self-parenting is a
    /// structural misuse and is excluded.
    pub fn insert_parent(&mut self, e: Entity, p: Entity)
        requires
            old(self).wf(),
            e.index < old(self).entity_count,
            p.index < old(self).entity_count,
            e != p,
        ensures
            final(self).wf(),
            final(self).parents.spec_get(e.index as int) == Some(Parent(p)),
            forall|x: int| x != e.index as int
                ==> #[trigger] final(self).parents.spec_get(x) == old(self).parents.spec_get(x),
            final(self).parents.log() == old(self).parents.log().push(StorageEvent {
                entity: e.index,
                kind: if old(self).parents.has(e.index as int) {
                    crate::storage::EventKind::Modified
                } else {
                    crate::storage::EventKind::Inserted
                },
            }),
            final(self).parents.reader_count() == old(self).parents.reader_count(),
            forall|q: ReaderId| 0 <= q.id < old(self).parents.reader_count()
                ==> #[trigger] final(self).parents.cursor(q) == old(self).parents.cursor(q),
            final(self).prev_parents == old(self).prev_parents,
            final(self).children == old(self).children,
            final(self).locals == old(self).locals,
            final(self).globals == old(self).globals,
            final(self).lazy == old(self).lazy,
            final(self).entity_count == old(self).entity_count,
    {
        self.parents.insert(e.index, Parent(p));
        proof {
            assert forall|k: int| 0 <= k < self.parents.log().len()
                implies (#[trigger] self.parents.log()[k]).entity < self.entity_count by {
                if k < old(self).parents.log().len() {
                    assert(self.parents.log()[k] == old(self).parents.log()[k]);
                }
            }
        }
    }

    /// Remove the `Parent` of `e`; the storage logs a `Removed` event,
    /// which the maintenance system deliberately ignores.
    pub fn remove_parent(&mut self, e: Entity)
        requires
            old(self).wf(),
            e.index < old(self).entity_count,
        ensures
            final(self).wf(),
            final(self).parents.spec_get(e.index as int) is None,
            forall|x: int| x != e.index as int
                ==> #[trigger] final(self).parents.spec_get(x) == old(self).parents.spec_get(x),
            final(self).parents.reader_count() == old(self).parents.reader_count(),
            forall|q: ReaderId| 0 <= q.id < old(self).parents.reader_count()
                ==> #[trigger] final(self).parents.cursor(q) == old(self).parents.cursor(q),
            final(self).parents.log() == if old(self).parents.has(e.index as int) {
                old(self).parents.log().push(StorageEvent {
                    entity: e.index,
                    kind: crate::storage::EventKind::Removed,
                })
            } else {
                old(self).parents.log()
            },
            final(self).prev_parents == old(self).prev_parents,
            final(self).children == old(self).children,
            final(self).locals == old(self).locals,
            final(self).globals == old(self).globals,
            final(self).lazy == old(self).lazy,
            final(self).entity_count == old(self).entity_count,
    {
        self.parents.remove(e.index);
        proof {
            assert forall|k: int| 0 <= k < self.parents.log().len()
                implies (#[trigger] self.parents.log()[k]).entity < self.entity_count by {
                if k < old(self).parents.log().len() {
                    assert(self.parents.log()[k] == old(self).parents.log()[k]);
                }
            }
        }
    }

    /// Author the local transform of `e`; the write is logged so that the
    /// propagation system sees the entity as dirty.
    pub fn set_local_matrix(&mut self, e: Entity, m: Matrix4)
        requires
            old(self).wf(),
            e.index < old(self).entity_count,
        ensures
            final(self).wf(),
            final(self).locals.spec_get(e.index as int) == Some(LocalMatrix(m)),
            forall|x: int| x != e.index as int
                ==> #[trigger] final(self).locals.spec_get(x) == old(self).locals.spec_get(x),
            final(self).locals.log() == old(self).locals.log().push(StorageEvent {
                entity: e.index,
                kind: if old(self).locals.has(e.index as int) {
                    crate::storage::EventKind::Modified
                } else {
                    crate::storage::EventKind::Inserted
                },
            }),
            final(self).locals.reader_count() == old(self).locals.reader_count(),
            forall|q: ReaderId| 0 <= q.id < old(self).locals.reader_count()
                ==> #[trigger] final(self).locals.cursor(q) == old(self).locals.cursor(q),
            final(self).parents == old(self).parents,
            final(self).prev_parents == old(self).prev_parents,
            final(self).children == old(self).children,
            final(self).globals == old(self).globals,
            final(self).lazy == old(self).lazy,
            final(self).entity_count == old(self).entity_count,
    {
        self.locals.insert(e.index, LocalMatrix(m));
        proof {
            assert forall|k: int| 0 <= k < self.locals.log().len()
                implies (#[trigger] self.locals.log()[k]).entity < self.entity_count by {
                if k < old(self).locals.log().len() {
                    assert(self.locals.log()[k] == old(self).locals.log()[k]);
                }
            }
        }
    }

    /// Author the global transform of `e` directly: the root seed, the one
    /// global write application code makes itself.
    pub fn seed_global_matrix(&mut self, e: Entity, m: Matrix4)
        requires
            old(self).wf(),
            e.index < old(self).entity_count,
        ensures
            final(self).wf(),
            final(self).globals.spec_get(e.index as int) == Some(GlobalMatrix(m)),
            forall|x: int| x != e.index as int
                ==> #[trigger] final(self).globals.spec_get(x) == old(self).globals.spec_get(x),
            final(self).globals.reader_count() == old(self).globals.reader_count(),
            forall|q: ReaderId| 0 <= q.id < old(self).globals.reader_count()
                ==> #[trigger] final(self).globals.cursor(q) == old(self).globals.cursor(q),
            final(self).parents == old(self).parents,
            final(self).prev_parents == old(self).prev_parents,
            final(self).children == old(self).children,
            final(self).locals == old(self).locals,
            final(self).lazy == old(self).lazy,
            final(self).entity_count == old(self).entity_count,
    {
        self.globals.insert(e.index, GlobalMatrix(m));
    }

    /// The barrier relation: `w2` is `w1` with every staged mutation
    /// applied in the order it was staged and the queue left empty; the
    /// global-matrix log grows only with entities the queue staged, and a
    /// barrier over an empty queue leaves the storages exactly as they
    /// were.
    pub open spec fn barrier_spec(w1: World, w2: World) -> bool {
        &&& w2.wf()
        &&& w2.entity_count == w1.entity_count
        &&& w2.lazy@ == Seq::<LazyOp>::empty()
        &&& w2.parents == w1.parents
        &&& w2.locals == w1.locals
        &&& w2.model() == apply_ops(w1.model(), w1.lazy@)
        &&& w2.globals.reader_count() == w1.globals.reader_count()
        &&& forall|q: ReaderId|
            0 <= q.id < w1.globals.reader_count() ==> #[trigger] w2.globals.cursor(q)
                == w1.globals.cursor(q)
        &&& w1.globals.log().len() <= w2.globals.log().len()
        &&& w2.globals.log().subrange(0, w1.globals.log().len() as int) == w1.globals.log()
        &&& forall|k: int|
            w1.globals.log().len() <= k < w2.globals.log().len() ==> stages_global(
                w1.lazy@,
                (#[trigger] w2.globals.log()[k]).entity,
            )
        &&& (w1.lazy@.len() == 0 ==> w2.prev_parents == w1.prev_parents && w2.children
            == w1.children && w2.globals == w1.globals)
    }

    /// The barrier: apply every staged mutation, in the order it was
    /// staged, leaving the queue empty. All mutations staged by one system
    /// are visible to the next system once its barrier has run.
    pub fn apply_lazy(&mut self)
        requires
            old(self).wf(),
        ensures
            World::barrier_spec(*old(self), *final(self)),
    {
        let ghost m0 = old(self).model();
        let ghost n = old(self).entity_count as int;
        let mut ops: Vec<LazyOp> = Vec::new();
        std::mem::swap(&mut ops, &mut self.lazy);
        let ghost all = ops@;
        proof {
            assert(all == old(self).lazy@);
            assert(self.model() =~~= apply_ops(m0, all.take(0)));
        }
        let mut i: usize = 0;
        while i < ops.len()
            invariant
                0 <= i <= ops.len(),
                all == ops@,
                forall|j: int| 0 <= j < all.len() ==> op_bounded(#[trigger] all[j], n),
                self.wf(),
                self.entity_count == old(self).entity_count,
                n == self.entity_count as int,
                self.lazy@ == Seq::<LazyOp>::empty(),
                self.parents == old(self).parents,
                self.locals == old(self).locals,
                self.model() == apply_ops(m0, all.take(i as int)),
                self.globals.reader_count() == old(self).globals.reader_count(),
                forall|q: ReaderId| 0 <= q.id < old(self).globals.reader_count()
                    ==> #[trigger] self.globals.cursor(q) == old(self).globals.cursor(q),
                old(self).globals.log().len() <= self.globals.log().len(),
                self.globals.log().subrange(0, old(self).globals.log().len() as int)
                    == old(self).globals.log(),
                forall|k: int|
                    old(self).globals.log().len() <= k < self.globals.log().len()
                        ==> stages_global(all, (#[trigger] self.globals.log()[k]).entity),
                i == 0 ==> self.prev_parents == old(self).prev_parents
                    && self.children == old(self).children
                    && self.globals == old(self).globals,
            decreases ops@.len() - i,
        {
            let ghost pre = *self;
            match &ops[i] {
                LazyOp::InsertPreviousParent { entity, parent } => {
                    self.prev_parents.insert(entity.index, PreviousParent(*parent));
                },
                LazyOp::RemovePreviousParent { entity } => {
                    self.prev_parents.remove(entity.index);
                },
                LazyOp::InsertChildren { entity, list } => {
                    let copy = list.duplicate();
                    self.children.insert(entity.index, copy);
                },
                LazyOp::InsertGlobalMatrix { entity, matrix } => {
                    self.globals.insert(entity.index, *matrix);
                },
            }
            proof {
                assert(all.take(i + 1 as int) =~= all.take(i as int).push(all[i as int]));
                lemma_apply_ops_push(m0, all.take(i as int), all[i as int]);
                assert(self.model().prev =~= apply_one(pre.model(), all[i as int]).prev);
                assert(self.model().children =~= apply_one(pre.model(), all[i as int]).children);
                assert(self.model().global =~= apply_one(pre.model(), all[i as int]).global);
                assert(self.model() =~~= apply_one(pre.model(), all[i as int]));
                assert(self.children_bounded(n)) by {
                    assert forall|e: int, ci: int|
                        self.children.has(e) && 0 <= ci
                            < small_vec_view(self.children.spec_get(e).unwrap()).len()
                        implies (#[trigger] small_vec_view(self.children.spec_get(e).unwrap())[ci]).index
                            < n by {
                        if self.children.spec_get(e) != pre.children.spec_get(e) {
                            assert(op_bounded(all[i as int], n));
                        }
                    }
                }
            }
            i = i + 1;
        }
        proof {
            assert(all.take(all.len() as int) =~= all);
            assert(self.model() =~~= apply_ops(old(self).model(), old(self).lazy@));
        }
    }

    /// The parent of `e`, if it has one.
    pub fn parent_of(&self, e: Entity) -> (r: Option<Entity>)
        ensures
            r == match self.parent_index(e.index as int) {
                Some(p) => Some(Entity { index: p as u32 }),
                None => None::<Entity>,
            },
    {
        match self.parents.get(e.index) {
            Some(p) => Some(p.0),
            None => None,
        }
    }

    /// The cached previous parent of `e`, if it has one.
    pub fn previous_parent_of(&self, e: Entity) -> (r: Option<Entity>)
        ensures
            r == match self.prev_index(e.index as int) {
                Some(p) => Some(Entity { index: p as u32 }),
                None => None::<Entity>,
            },
    {
        match self.prev_parents.get(e.index) {
            Some(p) => Some(p.0),
            None => None,
        }
    }

    /// The child list of `e`, if one exists.
    pub fn children_of(&self, e: Entity) -> (r: Option<&Children>)
        ensures
            match r {
                Some(c) => self.children.spec_get(e.index as int) == Some(*c),
                None => self.children.spec_get(e.index as int) is None,
            },
    {
        self.children.get(e.index)
    }

    /// The local transform of `e`, if authored.
    pub fn local_matrix_of(&self, e: Entity) -> (r: Option<Matrix4>)
        ensures
            match r {
                Some(m) => self.locals.spec_get(e.index as int) == Some(LocalMatrix(m)),
                None => self.locals.spec_get(e.index as int) is None,
            },
    {
        match self.locals.get(e.index) {
            Some(m) => Some(m.0),
            None => None,
        }
    }

    /// The world-space transform of `e`, if present.
    pub fn global_matrix_of(&self, e: Entity) -> (r: Option<Matrix4>)
        ensures
            match r {
                Some(m) => self.globals.spec_get(e.index as int) == Some(GlobalMatrix(m)),
                None => self.globals.spec_get(e.index as int) is None,
            },
    {
        match self.globals.get(e.index) {
            Some(m) => Some(m.0),
            None => None,
        }
    }
}

} // verus!
