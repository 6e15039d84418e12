//! The `Children` component: the ordered list of an entity's immediate
//! children, kept in a small-size-optimized vector.
//!
//! The list itself is a `smallvec::SmallVec`; its contents are named by
//! `small_vec_view`, and every operation the hierarchy maintenance uses
//! goes through a trusted wrapper whose contract speaks over that name.

use vstd::prelude::*;

use crate::entity::Entity;
use crate::entity::entity_differs;

verus! {

/// The immediate children of an entity, order-preserving and free of
/// duplicates once the hierarchy maintenance has reconciled it.
///
/// The list is a small-size-optimized vector; Verus sees the component as
/// opaque, and its contents only through the name `small_vec_view`.
#[verifier::external_body]
pub struct Children(smallvec::SmallVec<[Entity; 8]>);

/// The elements a child list holds, in order.
pub uninterp spec fn small_vec_view(v: Children) -> Seq<Entity>;

/// A sequence that names no entity twice.
pub open spec fn seq_dup_free(s: Seq<Entity>) -> bool {
    forall|i: int, j: int| 0 <= i < j < s.len() ==> s[i] != s[j]
}

impl View for Children {
    type V = Seq<Entity>;

    open spec fn view(&self) -> Seq<Entity> {
        small_vec_view(*self)
    }
}

impl Children {
    /// Builds and returns a `Children` component with the given entities.
    ///
    /// Relies on smallvec::SmallVec::from_slice: copies the slice in order.
    #[verifier::external_body]
    pub fn with(entity: &[Entity]) -> (c: Self)
        ensures
            small_vec_view(c) == entity@,
    {
        Self(smallvec::SmallVec::from_slice(entity))
    }

    /// Swaps the child at `a_index` with the child at `b_index`.
    ///
    /// Relies on the slice view of smallvec::SmallVec and `<[T]>::swap`.
    #[verifier::external_body]
    pub fn swap(&mut self, a_index: usize, b_index: usize)
        requires
            a_index < old(self)@.len(),
            b_index < old(self)@.len(),
        ensures
            final(self)@ == old(self)@
                .update(a_index as int, old(self)@[b_index as int])
                .update(b_index as int, old(self)@[a_index as int]),
    {
        self.0.swap(a_index, b_index);
    }

    /// An empty child list.
    ///
    /// Relies on smallvec::SmallVec::new: the new vector holds nothing.
    #[verifier::external_body]
    pub fn empty() -> (c: Self)
        ensures
            c@ == Seq::<Entity>::empty(),
    {
        Self(smallvec::SmallVec::new())
    }

    /// Relies on the slice view of smallvec::SmallVec for its length.
    #[verifier::external_body]
    pub fn len(&self) -> (n: usize)
        ensures
            n == self@.len(),
    {
        self.0.len()
    }

    /// Relies on the slice view of smallvec::SmallVec for indexing.
    #[verifier::external_body]
    pub fn get(&self, i: usize) -> (e: Entity)
        requires
            i < self@.len(),
        ensures
            e == self@[i as int],
    {
        self.0[i]
    }

    /// Relies on `<[T]>::contains` over the slice view of
    /// smallvec::SmallVec: membership by equality of entities.
    #[verifier::external_body]
    pub fn contains(&self, e: Entity) -> (r: bool)
        ensures
            r == self@.contains(e),
    {
        self.0.contains(&e)
    }

    /// Relies on smallvec::SmallVec::push: appends at the end.
    #[verifier::external_body]
    pub fn push(&mut self, e: Entity)
        ensures
            final(self)@ == old(self)@.push(e),
    {
        self.0.push(e);
    }

    /// Relies on smallvec::SmallVec::retain: it keeps, in place and in
    /// order, exactly the elements the predicate accepts, so afterwards
    /// the list holds an entity iff it held it before and it is not `e`,
    /// and a list without duplicates stays without duplicates.
    #[verifier::external_body]
    pub fn remove_entity(&mut self, e: Entity)
        ensures
            forall|x: Entity| #[trigger] final(self)@.contains(x) == (old(self)@.contains(x)
                && x != e),
            seq_dup_free(old(self)@) ==> seq_dup_free(final(self)@),
            final(self)@.len() <= old(self)@.len(),
    {
        self.0.retain(|x| entity_differs(*x, e));
    }

    /// Relies on the `Clone` impl of smallvec::SmallVec: the copy holds
    /// the same elements in the same order.
    #[verifier::external_body]
    pub fn duplicate(&self) -> (c: Self)
        ensures
            c@ == self@,
    {
        Self(self.0.clone())
    }
}

} // verus!
