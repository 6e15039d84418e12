//! Draw-phase bookkeeping: identifiers for registered draw functions,
//! the outcome types of render commands, and the batching rule that
//! merges adjacent vertex ranges of compatible phase items.

use vstd::prelude::*;

use crate::entity::Entity;

verus! {

/// Outcome of a render command.
pub enum RenderCommandResult {
    Success,
    Failure,
}

/// Identifier of a registered draw function.
#[derive(Clone, Copy, PartialEq, Eq, Structural, Hash, Debug)]
pub struct DrawFunctionId(pub usize);

/// A half-open range of a vertex buffer covered by one batch.
#[derive(Clone, Copy, PartialEq, Eq, Structural, Debug)]
pub struct BatchRange {
    pub start: u32,
    pub end: u32,
}

/// Outcome of trying to batch one item into another.
#[derive(Clone, Copy, PartialEq, Eq, Structural, Debug)]
pub enum BatchResult {
    /// The other item was batched into this one.
    Success,
    /// The two items cannot be batched together.
    IncompatibleItems,
}

/// An item drawn during a render phase, ordered by its sort key.
pub trait PhaseItem {
    fn sort_key(&self) -> u64;

    fn draw_function(&self) -> DrawFunctionId;
}

/// A phase item tied to one entity.
pub trait EntityPhaseItem: PhaseItem {
    /// The entity this item draws.
    spec fn spec_entity(&self) -> Entity;

    fn entity(&self) -> (e: Entity)
        ensures
            e == self.spec_entity(),
    ;
}

/// A phase item whose draws can be merged with a neighbour's.
pub trait BatchedPhaseItem: EntityPhaseItem {
    /// The vertex range this item's batch covers, if any.
    spec fn spec_batch_range(&self) -> Option<BatchRange>;

    fn batch_range(&self) -> (r: Option<BatchRange>)
        ensures
            r == self.spec_batch_range(),
    ;

    fn set_batch_range(&mut self, range: Option<BatchRange>)
        ensures
            final(self).spec_batch_range() == range,
            final(self).spec_entity() == old(self).spec_entity(),
    ;
}

/// The batching rule: two items merge exactly when both carry a range,
/// they belong to the same entity, and the ranges are adjacent; the
/// merged range spans both, whichever side came first.
pub fn merge_batch_ranges(
    this: Option<BatchRange>,
    other: Option<BatchRange>,
    same_entity: bool,
) -> (r: (BatchResult, Option<BatchRange>))
    ensures
        (this is Some && other is Some && same_entity && this.unwrap().end
            == other.unwrap().start) ==> (r.0 == BatchResult::Success && r.1 == Some(
            BatchRange { start: this.unwrap().start, end: other.unwrap().end },
        )),
        (this is Some && other is Some && same_entity && this.unwrap().end
            != other.unwrap().start && this.unwrap().start == other.unwrap().end) ==> (r.0
            == BatchResult::Success && r.1 == Some(
            BatchRange { start: other.unwrap().start, end: this.unwrap().end },
        )),
        (this is Some && other is Some && same_entity && this.unwrap().end
            != other.unwrap().start && this.unwrap().start != other.unwrap().end) ==> (r.0
            == BatchResult::IncompatibleItems && r.1 == this),
        (this is None || other is None || !same_entity) ==> (r.0
            == BatchResult::IncompatibleItems && r.1 == this),
{
    match (this, other) {
        (Some(a), Some(b)) => {
            if same_entity {
                if a.end == b.start {
                    (BatchResult::Success, Some(BatchRange { start: a.start, end: b.end }))
                } else if a.start == b.end {
                    (BatchResult::Success, Some(BatchRange { start: b.start, end: a.end }))
                } else {
                    (BatchResult::IncompatibleItems, this)
                }
            } else {
                (BatchResult::IncompatibleItems, this)
            }
        },
        _ => (BatchResult::IncompatibleItems, this),
    }
}

/// Batches `other` into `item` exactly when they are compatible: the
/// same entity, both carrying a range, and the ranges adjacent. On
/// success `item`'s range becomes the contiguous union and the other
/// item should be discarded from the render pass; otherwise `item` keeps
/// its range. The other item is never written (it is only read).
pub fn add_to_batch<T: BatchedPhaseItem>(item: &mut T, other: &T) -> (r: BatchResult)
    ensures
        r == BatchResult::Success <==> (old(item).spec_entity() == other.spec_entity()
            && old(item).spec_batch_range() is Some && other.spec_batch_range() is Some && (old(
            item,
        ).spec_batch_range().unwrap().end == other.spec_batch_range().unwrap().start || old(
            item,
        ).spec_batch_range().unwrap().start == other.spec_batch_range().unwrap().end)),
        (r == BatchResult::Success && old(item).spec_batch_range().unwrap().end
            == other.spec_batch_range().unwrap().start) ==> final(item).spec_batch_range()
            == Some(
            BatchRange {
                start: old(item).spec_batch_range().unwrap().start,
                end: other.spec_batch_range().unwrap().end,
            },
        ),
        (r == BatchResult::Success && old(item).spec_batch_range().unwrap().end
            != other.spec_batch_range().unwrap().start) ==> final(item).spec_batch_range()
            == Some(
            BatchRange {
                start: other.spec_batch_range().unwrap().start,
                end: old(item).spec_batch_range().unwrap().end,
            },
        ),
        r == BatchResult::IncompatibleItems ==> final(item).spec_batch_range() == old(
            item,
        ).spec_batch_range(),
        final(item).spec_entity() == old(item).spec_entity(),
{
    let same = item.entity().index == other.entity().index;
    let (result, merged) = merge_batch_ranges(item.batch_range(), other.batch_range(), same);
    if matches!(result, BatchResult::Success) {
        item.set_batch_range(merged);
    }
    result
}

/// A camera's render target, resolved to plain texture-view handles: the
/// sampled target is drawn to when present, with the main view as the
/// resolve target.
pub struct ViewTarget {
    pub view: u64,
    pub sampled_target: Option<u64>,
}

impl ViewTarget {
    /// The view to attach, and the resolve target if multisampling is on.
    pub fn get_color_attachment(&self) -> (r: (u64, Option<u64>))
        ensures
            self.sampled_target matches Some(s) ==> r == (s, Some(self.view)),
            self.sampled_target is None ==> r == (self.view, None::<u64>),
    {
        match self.sampled_target {
            Some(s) => (s, Some(self.view)),
            None => (self.view, None),
        }
    }
}

} // verus!
