//! Slot arenas: a plain free-list arena and a generational one.
pub mod generational;
pub mod typed;

use vstd::prelude::*;

verus! {

/// The operations every slot arena offers, stated over the value each
/// handle reaches.
pub trait Arena: Sized {
    type Index;

    type Item;

    /// The arena's internal invariant.
    spec fn arena_wf(&self) -> bool;

    /// The value that `index` reaches, if any.
    spec fn holds(&self, index: Self::Index) -> Option<Self::Item>;

    /// Number of usable slots.
    spec fn slot_capacity(&self) -> nat;

    /// Whether the arena may still grow when it is full.
    spec fn can_grow(&self) -> bool;

    /// Whether every usable slot holds a value.
    spec fn is_full(&self) -> bool;

    /// An empty arena with the minimum capacity.
    fn new() -> (r: Self)
        ensures
            r.arena_wf(),
            r.can_grow(),
            r.slot_capacity() >= 16,
            forall|i: Self::Index| r.holds(i) is None,
    ;

    /// An empty arena with room for at least `cap` values.
    fn with_capacity(cap: usize) -> (r: Self)
        requires
            cap < 0x0080_0000,
        ensures
            r.arena_wf(),
            r.can_grow(),
            r.slot_capacity() >= cap,
            r.slot_capacity() >= 16,
            forall|i: Self::Index| r.holds(i) is None,
    ;

    /// Number of usable slots.
    fn capacity(&self) -> (r: usize)
        requires
            self.arena_wf(),
        ensures
            r == self.slot_capacity(),
    ;

    /// Stores `item` without growing; `None` exactly when the arena is
    /// full, in which case nothing changes.
    fn try_insert(&mut self, item: Self::Item) -> (r: Option<Self::Index>)
        requires
            old(self).arena_wf(),
        ensures
            final(self).arena_wf(),
            final(self).slot_capacity() == old(self).slot_capacity(),
            final(self).can_grow() == old(self).can_grow(),
            r is None <==> old(self).is_full(),
            r matches Some(i) ==> old(self).holds(i) is None,
            r matches Some(i) ==> final(self).holds(i) == Some(item),
            forall|j: Self::Index|
                !(r matches Some(i) && i == j) ==> #[trigger] final(self).holds(j) == old(
                    self,
                ).holds(j),
    ;

    /// Stores `item`, growing the arena when it is full.
    fn insert(&mut self, item: Self::Item) -> (r: Self::Index)
        requires
            old(self).arena_wf(),
            old(self).can_grow(),
        ensures
            final(self).arena_wf(),
            final(self).slot_capacity() >= old(self).slot_capacity(),
            final(self).holds(r) == Some(item),
            forall|j: Self::Index|
                j != r ==> #[trigger] final(self).holds(j) == old(self).holds(j),
    ;

    /// Takes out the value that `index` reaches, if any.
    fn remove(&mut self, index: Self::Index) -> (r: Option<Self::Item>)
        requires
            old(self).arena_wf(),
        ensures
            final(self).arena_wf(),
            final(self).slot_capacity() == old(self).slot_capacity(),
            final(self).can_grow() == old(self).can_grow(),
            r == old(self).holds(index),
            final(self).holds(index) is None,
            forall|j: Self::Index|
                j != index ==> #[trigger] final(self).holds(j) == old(self).holds(j),
    ;

    /// The value that `index` reaches, if any.
    fn get(&self, index: Self::Index) -> (r: Option<&Self::Item>)
        requires
            self.arena_wf(),
        ensures
            match r {
                Some(v) => self.holds(index) == Some(*v),
                None => self.holds(index) is None,
            },
    ;
}

impl<T> Arena for generational::Arena<T> {
    type Index = generational::Index;

    type Item = T;

    open spec fn arena_wf(&self) -> bool {
        self.wf()
    }

    open spec fn holds(&self, index: generational::Index) -> Option<T> {
        self.lookup(index)
    }

    open spec fn slot_capacity(&self) -> nat {
        (self@.len() - 1) as nat
    }

    open spec fn can_grow(&self) -> bool {
        self@.len() <= generational::GROWTH_LIMIT
    }

    open spec fn is_full(&self) -> bool {
        forall|j: int| 1 <= j < self@.len() ==> self@[j].1 is Some
    }

    fn new() -> (r: Self) {
        let r = generational::Arena::with_capacity(generational::MIN_CAPACITY);
        proof {
            assert forall|i: generational::Index| r.holds(i) is None by {
                if i.slot() < r@.len() {
                    assert(r@[i.slot() as int] == (0u8, None::<T>));
                }
            }
        }
        r
    }

    fn with_capacity(cap: usize) -> (r: Self) {
        let r = generational::Arena::with_capacity(cap as u32);
        proof {
            assert forall|i: generational::Index| r.holds(i) is None by {
                if i.slot() < r@.len() {
                    assert(r@[i.slot() as int] == (0u8, None::<T>));
                }
            }
        }
        r
    }

    fn capacity(&self) -> (r: usize) {
        self.capacity() as usize
    }

    fn try_insert(&mut self, item: T) -> (r: Option<generational::Index>) {
        match generational::Arena::try_insert(self, item) {
            Ok(i) => {
                proof {
                    assert forall|j: generational::Index| j != i implies #[trigger] self.holds(j)
                        == old(self).holds(j) by {
                        generational::lemma_index_parts(i, j);
                    }
                }
                Some(i)
            },
            Err(_) => None,
        }
    }

    fn insert(&mut self, item: T) -> (r: generational::Index) {
        proof {
            self.lemma_wf();
        }
        let r = generational::Arena::insert(self, item);
        proof {
            assert forall|j: generational::Index| j != r implies #[trigger] self.holds(j) == old(
                self,
            ).holds(j) by {
                generational::lemma_index_parts(r, j);
                if j.slot() < self@.len() && j.slot() != r.slot() {
                    assert(self@[j.slot() as int] == (if j.slot() < old(self)@.len() {
                        old(self)@[j.slot() as int]
                    } else {
                        (0u8, None::<T>)
                    }));
                }
            }
        }
        r
    }

    fn remove(&mut self, index: generational::Index) -> (r: Option<T>) {
        let r = generational::Arena::remove(self, index);
        proof {
            assert forall|j: generational::Index| j != index implies #[trigger] self.holds(j)
                == old(self).holds(j) by {
                generational::lemma_index_parts(index, j);
            }
        }
        r
    }

    fn get(&self, index: generational::Index) -> (r: Option<&T>) {
        generational::Arena::get(self, index)
    }
}

} // verus!
