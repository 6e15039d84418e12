//! Component storage with an append-only change log.
//!
//! Each storage keeps one slot per entity index and records every insert,
//! overwrite and removal in a log. Consumers register a reader cursor and
//! drain the events that arrived since their last read; an event is never
//! delivered twice to the same reader.

use vstd::prelude::*;

verus! {

/// The kind of change a storage records for an entity's component.
#[derive(Clone, Copy, PartialEq, Eq, Structural, Debug)]
pub enum EventKind {
    Inserted,
    Modified,
    Removed,
}

/// One entry of a storage's change log: which entity, and what happened.
#[derive(Clone, Copy, PartialEq, Eq, Structural, Debug)]
pub struct StorageEvent {
    pub entity: u32,
    pub kind: EventKind,
}

/// Handle for one reader cursor of one storage's change log.
#[derive(Clone, Copy, PartialEq, Eq, Structural, Debug)]
pub struct ReaderId {
    pub id: usize,
}

/// A typed component storage indexed by entity index, with a change log
/// and per-reader cursors into that log.
pub struct Storage<T> {
    slots: Vec<Option<T>>,
    log: Vec<StorageEvent>,
    cursors: Vec<usize>,
}

impl<T> Storage<T> {
    /// The component held for entity index `e`, if any.
    pub closed spec fn spec_get(self, e: int) -> Option<T> {
        if 0 <= e < self.slots@.len() {
            self.slots@[e]
        } else {
            None
        }
    }

    /// Whether entity index `e` currently has a component here.
    pub open spec fn has(self, e: int) -> bool {
        self.spec_get(e) is Some
    }

    /// The whole change log since the storage was created.
    pub closed spec fn log(self) -> Seq<StorageEvent> {
        self.log@
    }

    /// How many reader cursors were registered.
    pub closed spec fn reader_count(self) -> int {
        self.cursors@.len() as int
    }

    /// The position of reader `r` in the log.
    pub closed spec fn cursor(self, r: ReaderId) -> int {
        self.cursors@[r.id as int] as int
    }

    /// The events reader `r` has not drained yet.
    pub open spec fn pending(self, r: ReaderId) -> Seq<StorageEvent> {
        self.log().subrange(self.cursor(r), self.log().len() as int)
    }

    /// Every registered cursor points into the log.
    pub open spec fn wf(self) -> bool {
        forall|r: ReaderId| 0 <= r.id < self.reader_count()
            ==> 0 <= #[trigger] self.cursor(r) <= self.log().len()
    }

    /// Two storages hold the same components (the logs may differ).
    pub open spec fn same_slots(self, other: Self) -> bool {
        forall|e: int| #[trigger] self.spec_get(e) == other.spec_get(e)
    }

    /// Well-formedness carries over to a storage with the same readers and
    /// cursors and a log that has only grown.
    proof fn lemma_wf_preserved(s1: Self, s2: Self)
        requires
            s1.wf(),
            s2.reader_count() == s1.reader_count(),
            forall|q: ReaderId| 0 <= q.id < s1.reader_count()
                ==> #[trigger] s2.cursor(q) == s1.cursor(q),
            s2.log().len() >= s1.log().len(),
        ensures
            s2.wf(),
    {
        assert forall|r: ReaderId| 0 <= r.id < s2.reader_count()
            implies 0 <= #[trigger] s2.cursor(r) <= s2.log().len() by {
            assert(s2.cursor(r) == s1.cursor(r));
            assert(0 <= s1.cursor(r) <= s1.log().len());
        }
    }

    pub fn new() -> (s: Self)
        ensures
            s.wf(),
            forall|e: int| !(#[trigger] s.has(e)),
            s.log() == Seq::<StorageEvent>::empty(),
            s.reader_count() == 0,
    {
        Storage { slots: Vec::new(), log: Vec::new(), cursors: Vec::new() }
    }

    pub fn get(&self, e: u32) -> (r: Option<&T>)
        ensures
            match r {
                Some(v) => self.spec_get(e as int) == Some(*v),
                None => self.spec_get(e as int) is None,
            },
    {
        if (e as usize) < self.slots.len() {
            self.slots[e as usize].as_ref()
        } else {
            None
        }
    }

    /// Store `v` for entity `e`, logging `Modified` if `e` already had a
    /// component and `Inserted` otherwise.
    pub fn insert(&mut self, e: u32, v: T)
        ensures
            final(self).spec_get(e as int) == Some(v),
            forall|x: int| x != e as int ==> #[trigger] final(self).spec_get(x)
                == old(self).spec_get(x),
            final(self).log() == old(self).log().push(StorageEvent {
                entity: e,
                kind: if old(self).has(e as int) { EventKind::Modified } else {
                    EventKind::Inserted
                },
            }),
            final(self).reader_count() == old(self).reader_count(),
            forall|q: ReaderId| 0 <= q.id < old(self).reader_count()
                ==> #[trigger] final(self).cursor(q) == old(self).cursor(q),
            old(self).wf() ==> final(self).wf(),
    {
        let was_present = if (e as usize) < self.slots.len() {
            self.slots[e as usize].is_some()
        } else {
            false
        };
        while self.slots.len() <= e as usize
            invariant
                forall|x: int| old(self).slots@.len() <= x < self.slots@.len()
                    ==> #[trigger] self.slots@[x] is None,
                forall|x: int| 0 <= x < old(self).slots@.len()
                    ==> #[trigger] self.slots@[x] == old(self).slots@[x],
                self.slots@.len() >= old(self).slots@.len(),
                self.log@ == old(self).log@,
                self.cursors@ == old(self).cursors@,
            decreases e as int - self.slots@.len() + 1,
        {
            self.slots.push(None);
        }
        self.slots[e as usize] = Some(v);
        self.log.push(StorageEvent {
            entity: e,
            kind: if was_present { EventKind::Modified } else { EventKind::Inserted },
        });
        proof {
            if old(self).wf() {
                Self::lemma_wf_preserved(*old(self), *self);
            }
        }
    }

    /// Drop the component of entity `e`, logging `Removed` if one was there.
    pub fn remove(&mut self, e: u32)
        ensures
            final(self).spec_get(e as int) is None,
            forall|x: int| x != e as int ==> #[trigger] final(self).spec_get(x)
                == old(self).spec_get(x),
            final(self).log() == if old(self).has(e as int) {
                old(self).log().push(StorageEvent { entity: e, kind: EventKind::Removed })
            } else {
                old(self).log()
            },
            final(self).reader_count() == old(self).reader_count(),
            forall|q: ReaderId| 0 <= q.id < old(self).reader_count()
                ==> #[trigger] final(self).cursor(q) == old(self).cursor(q),
            old(self).wf() ==> final(self).wf(),
    {
        if (e as usize) < self.slots.len() {
            let was_present = self.slots[e as usize].is_some();
            self.slots[e as usize] = None;
            if was_present {
                self.log.push(StorageEvent { entity: e, kind: EventKind::Removed });
            }
        }
        proof {
            if old(self).wf() {
                Self::lemma_wf_preserved(*old(self), *self);
            }
        }
    }

    /// Create a reader cursor positioned at the current end of the log, so
    /// that it will see exactly the events that arrive from now on.
    pub fn register_reader(&mut self) -> (r: ReaderId)
        ensures
            r.id as int == old(self).reader_count(),
            final(self).reader_count() == old(self).reader_count() + 1,
            final(self).cursor(r) == old(self).log().len(),
            final(self).pending(r) == Seq::<StorageEvent>::empty(),
            forall|q: ReaderId| q.id < old(self).reader_count()
                ==> #[trigger] final(self).cursor(q) == old(self).cursor(q),
            final(self).log() == old(self).log(),
            forall|x: int| #[trigger] final(self).spec_get(x) == old(self).spec_get(x),
            old(self).wf() ==> final(self).wf(),
    {
        let r = ReaderId { id: self.cursors.len() };
        let end = self.log.len();
        self.cursors.push(end);
        proof {
            assert(final(self).pending(r) =~= Seq::<StorageEvent>::empty());
            if old(self).wf() {
                assert forall|q: ReaderId| 0 <= q.id < self.reader_count()
                    implies 0 <= #[trigger] self.cursor(q) <= self.log().len() by {
                    if q.id < old(self).reader_count() {
                        assert(self.cursor(q) == old(self).cursor(q));
                        assert(0 <= old(self).cursor(q) <= old(self).log().len());
                    }
                }
            }
        }
        r
    }

    /// Drain the events reader `r` has not seen yet, advancing the cursor
    /// past them; a second read with no writes in between returns nothing.
    pub fn read(&mut self, r: ReaderId) -> (evs: Vec<StorageEvent>)
        requires
            r.id < old(self).reader_count(),
            old(self).wf(),
        ensures
            evs@ == old(self).pending(r),
            final(self).cursor(r) == final(self).log().len(),
            final(self).pending(r) == Seq::<StorageEvent>::empty(),
            forall|q: ReaderId| q.id < old(self).reader_count() && q.id != r.id
                ==> #[trigger] final(self).cursor(q) == old(self).cursor(q),
            final(self).log() == old(self).log(),
            final(self).reader_count() == old(self).reader_count(),
            forall|x: int| #[trigger] final(self).spec_get(x) == old(self).spec_get(x),
            final(self).wf(),
    {
        let start = self.cursors[r.id];
        proof {
            assert(start == old(self).cursor(r));
            assert(0 <= old(self).cursor(r) <= old(self).log().len());
        }
        let mut evs: Vec<StorageEvent> = Vec::new();
        let mut i = start;
        proof {
            assert(evs@ =~= self.log@.subrange(start as int, start as int));
        }
        while i < self.log.len()
            invariant
                start <= i <= self.log@.len(),
                evs@ == self.log@.subrange(start as int, i as int),
                self == old(self),
            decreases self.log@.len() - i,
        {
            evs.push(self.log[i]);
            proof {
                assert(evs@ =~= self.log@.subrange(start as int, i + 1 as int));
            }
            i = i + 1;
        }
        let end = self.log.len();
        self.cursors[r.id] = end;
        proof {
            assert(evs@ =~= old(self).pending(r));
            assert(final(self).pending(r) =~= Seq::<StorageEvent>::empty());
            assert forall|q: ReaderId| 0 <= q.id < self.reader_count()
                implies 0 <= #[trigger] self.cursor(q) <= self.log().len() by {
                if q.id != r.id {
                    assert(self.cursor(q) == old(self).cursor(q));
                    assert(0 <= old(self).cursor(q) <= old(self).log().len());
                }
            }
        }
        evs
    }
}

} // verus!
