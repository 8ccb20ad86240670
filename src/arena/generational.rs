//! A generational arena allocator.
//!
//! Slot 0 is always vacant and heads the free list. Every slot carries a
//! generation count, advanced each time its value is removed, and every
//! handle records the generation it was issued under: a handle whose slot
//! has since been emptied and filled again no longer reaches anything.
//!
//! A handle packs the generation into its high 8 bits and the slot into its
//! low 24 bits, which bounds an arena to fewer than 2^24 slots.
use crate::arena::typed::{
    lemma_occupied_values_extend,
    lemma_occupied_values_len,
    lemma_occupied_values_update,
    link_to,
    occupied_values,
    slot_range,
};
use vstd::prelude::*;

verus! {

/// Smallest number of usable slots an arena is created with.
pub const MIN_CAPACITY: u32 = 16;

/// Exclusive bound on the slot numbers a handle can carry.
pub const SLOT_LIMIT: u32 = 0x0100_0000;

/// An arena may grow (double) only while it holds at most this many slots.
pub const GROWTH_LIMIT: u32 = 0x0080_0000;

/// A handle naming one slot of an `Arena` and the generation it was issued
/// under.
#[derive(PartialEq, Eq, Structural, Debug, Clone, Copy)]
pub struct Index(u32);

impl Index {
    /// The slot this handle names.
    pub closed spec fn slot(self) -> nat {
        (self.0 & 0x00FF_FFFF) as nat
    }

    /// The generation this handle was issued under.
    pub closed spec fn generation(self) -> u8 {
        (self.0 >> 24u32) as u8
    }

    /// The generation, read from the high 8 bits.
    fn gen(&self) -> (r: u8)
        ensures
            r == self.generation(),
    {
        (self.0 >> 24u32) as u8
    }

    /// The generation and the slot.
    fn pair(self) -> (r: (u8, u32))
        ensures
            r.0 == self.generation(),
            r.1 == self.slot(),
    {
        let gen = self.gen();
        let idx = self.0 & 0x00FF_FFFFu32;
        (gen, idx)
    }

    /// Packs a generation and a slot into a handle.
    fn new(gen: u8, index: u32) -> (r: Index)
        requires
            index < SLOT_LIMIT,
        ensures
            r.slot() == index,
            r.generation() == gen,
    {
        let g = gen as u32;
        let packed = index | (g << 24u32);
        assert(((index | (g << 24u32)) & 0x00FF_FFFFu32) == index && ((index | (g << 24u32))
            >> 24u32) == g) by (bit_vector)
            requires
                index < 0x0100_0000u32,
                g < 256u32,
        ;
        Index(packed)
    }
}

/// Two handles are equal exactly when they agree on slot and generation.
pub proof fn lemma_index_parts(a: Index, b: Index)
    ensures
        a == b <==> (a.slot() == b.slot() && a.generation() == b.generation()),
{
    let x = a.0;
    let y = b.0;
    assert((x & 0x00FF_FFFFu32) == (y & 0x00FF_FFFFu32) && (x >> 24u32) == (y >> 24u32) ==> x
        == y) by (bit_vector);
    assert(x >> 24u32 < 256u32) by (bit_vector);
    assert(y >> 24u32 < 256u32) by (bit_vector);
}

/// Two distinct handles that both reach a value name different slots: no
/// slot is reachable through two live handles.
pub proof fn lemma_live_handles_distinct<T>(a: &Arena<T>, h1: Index, h2: Index)
    requires
        a.wf(),
        a.lookup(h1) is Some,
        a.lookup(h2) is Some,
        h1 != h2,
    ensures
        h1.slot() != h2.slot(),
{
    lemma_index_parts(h1, h2);
}

/// Once a slot holds a value under a generation other than the one `stale`
/// was issued under (as after `remove(stale)` and a later insertion into
/// the same slot), `stale` reaches nothing, while the slot's current handle
/// reaches the new value.
pub proof fn lemma_stale_handle<T>(a: &Arena<T>, stale: Index, fresh: Index)
    requires
        a.wf(),
        stale.slot() == fresh.slot(),
        stale.generation() != fresh.generation(),
        a.lookup(fresh) is Some,
    ensures
        a.lookup(stale) is None,
{
}

/// Removing a value advances its slot's generation, so the handle it was
/// stored under differs from every handle issued for the slot's next value.
pub proof fn lemma_next_generation_differs(g: u8)
    ensures
        next_generation(g) != g,
{
}

/// An arena never holds more values than its usable slots: slot 0 is never
/// occupied.
pub proof fn lemma_occupied_within_capacity<T>(a: &Arena<T>)
    requires
        a.wf(),
    ensures
        a.occupied_count() <= a@.len() - 1,
{
    a.lemma_wf();
    let values = a@.map_values(|p: (u8, Option<T>)| p.1);
    assert(values[0] is None);
    lemma_occupied_values_len(values);
}

/// A slot of the arena. Both variants carry the slot's generation.
enum Entry<T> {
    /// A vacant slot, holding the next link of the free list.
    Vacant(u8, Option<u32>),
    /// A slot holding a value.
    Occupied(u8, T),
}

/// A generational arena of `T` values addressed by `Index` handles.
pub struct Arena<T> {
    data: Vec<Entry<T>>,
    /// The free list, head first.
    free: Ghost<Seq<nat>>,
}

/// An entry's generation and value.
spec fn entry_view<T>(e: Entry<T>) -> (u8, Option<T>) {
    match e {
        Entry::Vacant(g, _) => (g, None),
        Entry::Occupied(g, v) => (g, Some(v)),
    }
}

/// The next link of an entry, if it is vacant.
spec fn entry_next<T>(e: Entry<T>) -> Option<u32> {
    match e {
        Entry::Vacant(_, next) => next,
        Entry::Occupied(_, _) => None,
    }
}

/// The generation that follows `g`, wrapping after 255.
pub open spec fn next_generation(g: u8) -> u8 {
    ((g + 1) % 256) as u8
}

impl<T> View for Arena<T> {
    /// Each slot's generation and value (slot 0 included).
    type V = Seq<(u8, Option<T>)>;

    closed spec fn view(&self) -> Seq<(u8, Option<T>)> {
        self.data@.map_values(|e: Entry<T>| entry_view(e))
    }
}

impl<T> Arena<T> {
    /// The free list: the vacant slots in the order they will be reused.
    pub closed spec fn free_list(&self) -> Seq<nat> {
        self.free@
    }

    /// The value that `index` names: its slot must hold a value under the
    /// handle's generation.
    pub open spec fn lookup(&self, index: Index) -> Option<T> {
        if index.slot() < self@.len() && self@[index.slot() as int].0 == index.generation() {
            self@[index.slot() as int].1
        } else {
            None
        }
    }

    /// Number of values held.
    pub open spec fn occupied_count(&self) -> nat {
        occupied_values(self@.map_values(|p: (u8, Option<T>)| p.1)).len()
    }

    /// The arena's invariant: at least one usable slot, and the free list
    /// as `links_ok` describes it.
    pub closed spec fn wf(&self) -> bool {
        self.links_ok() && self.data@.len() >= 2
    }

    /// Slot 0 is vacant and heads the free list, which runs through every
    /// other vacant slot exactly once.
    spec fn links_ok(&self) -> bool {
        let d = self.data@;
        let fl = self.free@;
        &&& 1 <= d.len() <= SLOT_LIMIT
        &&& d[0] == Entry::<T>::Vacant(0, link_to(fl, 0))
        &&& fl.no_duplicates()
        &&& forall|k: int|
            0 <= k < fl.len() ==> 1 <= #[trigger] fl[k] < d.len() && d[fl[k] as int] is Vacant
                && entry_next(d[fl[k] as int]) == link_to(fl, k + 1)
        &&& forall|i: int| 1 <= i < d.len() && (#[trigger] d[i] is Vacant) ==> fl.contains(i as nat)
    }

    /// What a well-formed arena shows through its view and free list.
    pub proof fn lemma_wf(&self)
        requires
            self.wf(),
        ensures
            1 <= self@.len() <= SLOT_LIMIT,
            self@[0].1 is None,
            self.free_list().no_duplicates(),
            forall|k: int|
                0 <= k < self.free_list().len() ==> 1 <= #[trigger] self.free_list()[k]
                    < self@.len(),
            forall|i: int|
                1 <= i < self@.len() ==> ((#[trigger] self@[i]).1 is None
                    <==> self.free_list().contains(i as nat)),
    {
        assert forall|i: int| 1 <= i < self@.len() implies ((#[trigger] self@[i]).1 is None
            <==> self.free_list().contains(i as nat)) by {
            if self.free_list().contains(i as nat) {
                let k = choose|k: int| 0 <= k < self.free@.len() && self.free@[k] == i as nat;
                assert(self.free@[k] == i as nat);
            }
        }
    }

    /// Creates an arena with `max(n, MIN_CAPACITY)` usable slots, all of
    /// generation 0, linked into the free list in ascending order.
    pub fn with_capacity(n: u32) -> (r: Arena<T>)
        requires
            n < SLOT_LIMIT,
        ensures
            r.wf(),
            r@.len() == 1 + (if n < MIN_CAPACITY {
                MIN_CAPACITY
            } else {
                n
            }),
            forall|i: int| 0 <= i < r@.len() ==> #[trigger] r@[i] == (0u8, None::<T>),
            r.free_list() == slot_range(1, r@.len()),
    {
        let mut data: Vec<Entry<T>> = Vec::new();
        data.push(Entry::Vacant(0, None));
        let mut arena = Arena { data, free: Ghost(Seq::empty()) };
        let total: u32 = if n < MIN_CAPACITY {
            MIN_CAPACITY
        } else {
            n
        };
        arena.reserve(total);
        proof {
            assert(arena.free@ =~= slot_range(1, arena@.len()));
        }
        arena
    }

    /// Number of usable slots: slot 0 is not counted.
    pub fn capacity(&self) -> (r: u32)
        requires
            self.wf(),
        ensures
            r == self@.len() - 1,
    {
        (self.data.len() - 1) as u32
    }

    /// The slot at the head of the free list, if any slot is vacant.
    pub fn next_free(&self) -> (r: Option<u32>)
        requires
            self.wf(),
        ensures
            r == (if self.free_list().len() > 0 {
                Some(self.free_list()[0] as u32)
            } else {
                None
            }),
    {
        match &self.data[0] {
            Entry::Vacant(_, next) => *next,
            Entry::Occupied(_, _) => None,
        }
    }

    /// Sets the free-list head stored in slot 0.
    fn set_free(&mut self, next: Option<u32>)
        requires
            old(self).data@.len() >= 1,
        ensures
            final(self).data@ == old(self).data@.update(0, Entry::<T>::Vacant(0, next)),
            final(self).free == old(self).free,
    {
        self.data.set(0, Entry::Vacant(0, next));
    }

    /// Places `item` in the slot at the head of the free list, under the
    /// generation that slot carries, and returns a handle to it. When no slot
    /// is vacant the arena is left as it was and `item` is handed back.
    pub fn try_insert(&mut self, item: T) -> (r: Result<Index, T>)
        requires
            old(self).wf(),
        ensures
            final(self).wf(),
            r is Err <==> (forall|j: int| 1 <= j < old(self)@.len() ==> old(self)@[j].1 is Some),
            match r {
                Ok(i) => {
                    &&& old(self).free_list().len() > 0
                    &&& i.slot() == old(self).free_list()[0]
                    &&& 1 <= i.slot() < old(self)@.len()
                    &&& old(self)@[i.slot() as int].1 is None
                    &&& i.generation() == old(self)@[i.slot() as int].0
                    &&& final(self)@ == old(self)@.update(
                        i.slot() as int,
                        (i.generation(), Some(item)),
                    )
                    &&& final(self).free_list() == old(self).free_list().drop_first()
                },
                Err(v) => old(self).free_list().len() == 0 && v == item && *final(self) == *old(
                    self,
                ),
            },
    {
        proof {
            self.lemma_wf();
        }
        let idx = match self.next_free() {
            None => {
                return Err(item);
            },
            Some(idx) => idx,
        };
        let ghost fl = self.free@;
        let ghost old_data = self.data@;
        let free = idx as usize;
        let (gen, next) = match &self.data[free] {
            Entry::Occupied(_, _) => unreached(),
            Entry::Vacant(gen, next) => (*gen, *next),
        };
        self.set_free(next);
        self.data.set(free, Entry::Occupied(gen, item));
        self.free = Ghost(fl.drop_first());
        proof {
            let d = self.data@;
            let nfl = self.free@;
            assert(fl[0] == free as nat);
            assert(next == link_to(fl, 1));
            assert forall|k: int| 0 <= k < nfl.len() implies 1 <= #[trigger] nfl[k] < d.len()
                && d[nfl[k] as int] is Vacant && entry_next(d[nfl[k] as int]) == link_to(
                nfl,
                k + 1,
            ) by {
                assert(nfl[k] == fl[k + 1]);
                assert(fl[k + 1] != fl[0]);
                assert(link_to(nfl, k + 1) == link_to(fl, k + 2));
            }
            assert forall|i: int| 1 <= i < d.len() && (#[trigger] d[i] is Vacant) implies nfl.contains(
                i as nat,
            ) by {
                assert(old_data[i] is Vacant);
                let k = choose|k: int| 0 <= k < fl.len() && fl[k] == i as nat;
                assert(k != 0);
                assert(nfl[k - 1] == i as nat);
            }
            assert(self@ =~= old(self)@.update(free as int, (gen, Some(item))));
        }
        Ok(Index::new(gen, idx))
    }

    /// Places `item` in a vacant slot, doubling the number of usable slots
    /// first when none is vacant. Existing values keep their slots.
    pub fn insert(&mut self, item: T) -> (r: Index)
        requires
            old(self).wf(),
            old(self)@.len() <= GROWTH_LIMIT,
        ensures
            final(self).wf(),
            1 <= r.slot() < final(self)@.len(),
            final(self).lookup(r) == Some(item),
            final(self).occupied_count() == old(self).occupied_count() + 1,
            old(self)@.len() <= final(self)@.len() <= 2 * old(self)@.len(),
            r.slot() < old(self)@.len() ==> {
                &&& old(self)@[r.slot() as int].1 is None
                &&& r.generation() == old(self)@[r.slot() as int].0
            },
            r.slot() >= old(self)@.len() ==> r.generation() == 0,
            forall|j: int|
                0 <= j < final(self)@.len() && j != r.slot() ==> #[trigger] final(self)@[j] == (
                if j < old(self)@.len() {
                    old(self)@[j]
                } else {
                    (0u8, None::<T>)
                }),
            old(self).free_list().len() > 0 ==> {
                &&& r.slot() == old(self).free_list()[0]
                &&& final(self)@ == old(self)@.update(
                    r.slot() as int,
                    (r.generation(), Some(item)),
                )
                &&& final(self).free_list() == old(self).free_list().drop_first()
            },
            old(self).free_list().len() == 0 ==> {
                &&& r.slot() == old(self)@.len()
                &&& final(self)@.len() == 2 * old(self)@.len() - 1
                &&& final(self).free_list() == slot_range(
                    old(self)@.len() + 1,
                    (2 * old(self)@.len() - 1) as nat,
                )
            },
    {
        let r = match self.try_insert(item) {
            Ok(idx) => idx,
            Err(item) => self.reserve_insert(item),
        };
        proof {
            let before = old(self)@;
            let values = before.map_values(|p: (u8, Option<T>)| p.1);
            let after = self@.map_values(|p: (u8, Option<T>)| p.1);
            if old(self).free_list().len() > 0 {
                assert(after =~= values.update(r.slot() as int, Some(item)));
                lemma_occupied_values_update(values, r.slot() as int, Some(item));
            } else {
                let n = (before.len() - 1) as nat;
                let grown = values + Seq::new(n, |i: int| None::<T>);
                assert(after =~= grown.update(r.slot() as int, Some(item)));
                lemma_occupied_values_extend(values, n);
                lemma_occupied_values_update(grown, r.slot() as int, Some(item));
            }
        }
        r
    }

    /// Doubles the number of usable slots, then inserts `item` into the
    /// first new one.
    fn reserve_insert(&mut self, item: T) -> (r: Index)
        requires
            old(self).wf(),
            old(self).free_list().len() == 0,
            old(self)@.len() <= GROWTH_LIMIT,
        ensures
            final(self).wf(),
            r.slot() == old(self)@.len(),
            r.generation() == 0,
            final(self)@ == (old(self)@ + Seq::new(
                (old(self)@.len() - 1) as nat,
                |i: int| (0u8, None::<T>),
            )).update(r.slot() as int, (0u8, Some(item))),
            final(self).free_list() == slot_range(
                old(self)@.len() + 1,
                (2 * old(self)@.len() - 1) as nat,
            ),
    {
        let ghost len = self@.len();
        proof {
            self.lemma_wf();
        }
        let cap = self.capacity();
        self.reserve(cap);
        proof {
            assert(self.free_list()[0] == len);
        }
        match self.try_insert(item) {
            Ok(idx) => {
                proof {
                    assert(self.free_list() =~= slot_range(len + 1, (2 * len - 1) as nat));
                }
                idx
            },
            Err(_) => unreached(),
        }
    }

    /// Takes the value out of the slot that `index` names, advances the
    /// slot's generation and puts the slot at the head of the free list. A
    /// vacant slot, an unknown slot or a generation that does not match gives
    /// `None` and leaves the arena as it was.
    pub fn remove(&mut self, index: Index) -> (r: Option<T>)
        requires
            old(self).wf(),
        ensures
            final(self).wf(),
            r == old(self).lookup(index),
            final(self).lookup(index) is None,
            r is Some ==> final(self).occupied_count() + 1 == old(self).occupied_count(),
            r is Some ==> {
                &&& final(self)@ == old(self)@.update(
                    index.slot() as int,
                    (next_generation(index.generation()), None),
                )
                &&& final(self).free_list() == seq![index.slot()] + old(self).free_list()
            },
            r is None ==> *final(self) == *old(self),
    {
        proof {
            self.lemma_wf();
        }
        let (gen, idx) = index.pair();
        let i = idx as usize;
        if i >= self.data.len() {
            return None;
        }
        match &self.data[i] {
            Entry::Occupied(g, _) => {
                if *g != gen {
                    return None;
                }
            },
            Entry::Vacant(_, _) => {
                return None;
            },
        }
        let ghost fl = self.free@;
        let ghost old_data = self.data@;
        let free = self.next_free();
        let next_gen: u8 = if gen == 255 {
            0
        } else {
            gen + 1
        };
        let mut entry = Entry::Vacant(next_gen, free);
        std::mem::swap(&mut self.data[i], &mut entry);
        self.set_free(Some(idx));
        self.free = Ghost(seq![i as nat] + fl);
        proof {
            let d = self.data@;
            let nfl = self.free@;
            assert(!fl.contains(i as nat));
            assert forall|k: int| 0 <= k < nfl.len() implies 1 <= #[trigger] nfl[k] < d.len()
                && d[nfl[k] as int] is Vacant && entry_next(d[nfl[k] as int]) == link_to(
                nfl,
                k + 1,
            ) by {
                if k > 0 {
                    assert(nfl[k] == fl[k - 1]);
                    assert(link_to(nfl, k + 1) == link_to(fl, k));
                } else {
                    assert(link_to(nfl, 1) == link_to(fl, 0));
                }
            }
            assert forall|a: int, b: int|
                0 <= a < nfl.len() && 0 <= b < nfl.len() && a != b implies nfl[a] != nfl[b] by {
                if a > 0 {
                    assert(nfl[a] == fl[a - 1]);
                }
                if b > 0 {
                    assert(nfl[b] == fl[b - 1]);
                }
            }
            assert forall|j: int| 1 <= j < d.len() && (#[trigger] d[j] is Vacant) implies nfl.contains(
                j as nat,
            ) by {
                if j != i {
                    assert(old_data[j] is Vacant);
                    let k = choose|k: int| 0 <= k < fl.len() && fl[k] == j as nat;
                    assert(nfl[k + 1] == j as nat);
                } else {
                    assert(nfl[0] == j as nat);
                }
            }
            assert(self@ =~= old(self)@.update(i as int, (next_generation(gen), None)));
        }
        proof {
            let values = old(self)@.map_values(|p: (u8, Option<T>)| p.1);
            assert(self@.map_values(|p: (u8, Option<T>)| p.1) =~= values.update(i as int, None));
            lemma_occupied_values_update(values, i as int, None);
        }
        match entry {
            Entry::Occupied(_, item) => Some(item),
            Entry::Vacant(_, _) => unreached(),
        }
    }

    /// The value that `index` names, if its slot holds one under the
    /// handle's generation.
    pub fn get(&self, index: Index) -> (r: Option<&T>)
        requires
            self.wf(),
        ensures
            match r {
                Some(v) => self.lookup(index) == Some(*v),
                None => self.lookup(index) is None,
            },
    {
        let (gen, idx) = index.pair();
        let i = idx as usize;
        if i >= self.data.len() {
            return None;
        }
        match &self.data[i] {
            Entry::Occupied(g, v) => {
                if *g == gen {
                    Some(v)
                } else {
                    None
                }
            },
            Entry::Vacant(_, _) => None,
        }
    }

    /// A mutable reference to the value that `index` names, if its slot
    /// holds one under the handle's generation. Writing through it changes
    /// that slot's value alone.
    pub fn get_mut(&mut self, index: Index) -> (r: Option<&mut T>)
        requires
            old(self).wf(),
        ensures
            r matches Some(v) ==> old(self).lookup(index) == Some(*v),
            r matches Some(v) ==> final(self)@ == old(self)@.update(
                index.slot() as int,
                (index.generation(), Some(*final(v))),
            ),
            r matches Some(v) ==> final(self).free_list() == old(self).free_list(),
            r matches Some(v) ==> final(self).wf(),
            r is None ==> old(self).lookup(index) is None && *final(self) == *old(self),
    {
        let (gen, idx) = index.pair();
        let i = idx as usize;
        if i >= self.data.len() {
            return None;
        }
        match &self.data[i] {
            Entry::Occupied(g, _) => {
                if *g != gen {
                    return None;
                }
            },
            Entry::Vacant(_, _) => {
                return None;
            },
        }
        match &mut self.data[i] {
            Entry::Occupied(_, v) => Some(v),
            Entry::Vacant(_, _) => unreached(),
        }
    }

    /// Appends `n` vacant slots of generation 0, linked in ascending order in
    /// front of the current free list.
    #[verifier::rlimit(100)]
    fn reserve(&mut self, n: u32)
        requires
            old(self).links_ok(),
            n >= 1,
            old(self)@.len() + n <= SLOT_LIMIT,
        ensures
            final(self).wf(),
            final(self)@ == old(self)@ + Seq::new(n as nat, |i: int| (0u8, None::<T>)),
            final(self).free_list() == slot_range(old(self)@.len(), (old(self)@.len() + n) as nat)
                + old(self).free_list(),
    {
        let ghost old_data = self.data@;
        let ghost fl = self.free@;
        let start = self.data.len() as u32;
        let end = start + n;
        let head = match &self.data[0] {
            Entry::Vacant(_, next) => *next,
            Entry::Occupied(_, _) => None,
        };
        let mut idx: u32 = start;
        while idx < end - 1
            invariant
                start <= idx <= end - 1,
                end == start + n,
                start == old_data.len(),
                self.data@.len() == idx,
                self.free@ == fl,
                forall|j: int| 0 <= j < start ==> self.data@[j] == old_data[j],
                forall|j: int|
                    start <= j < idx ==> #[trigger] self.data@[j] == Entry::<T>::Vacant(
                        0,
                        Some((j + 1) as u32),
                    ),
            decreases end - idx,
        {
            self.data.push(Entry::Vacant(0, Some(idx + 1)));
            idx = idx + 1;
        }
        self.data.push(Entry::Vacant(0, head));
        self.set_free(Some(start));
        let ghost added = slot_range(start as nat, end as nat);
        self.free = Ghost(added + fl);
        proof {
            let d = self.data@;
            let nfl = self.free@;
            assert(fl.len() > 0 ==> head == Some(fl[0] as u32));
            assert(fl.len() == 0 ==> head is None);
            assert forall|k: int| 0 <= k < nfl.len() implies 1 <= #[trigger] nfl[k] < d.len()
                && d[nfl[k] as int] is Vacant && entry_next(d[nfl[k] as int]) == link_to(
                nfl,
                k + 1,
            ) by {
                if k < n {
                    assert(nfl[k] == start + k);
                    if k + 1 < n {
                        assert(nfl[k + 1] == start + k + 1);
                    } else {
                        assert(link_to(nfl, k + 1) == link_to(fl, 0));
                    }
                } else {
                    assert(nfl[k] == fl[k - n]);
                    assert(link_to(nfl, k + 1) == link_to(fl, k + 1 - n));
                }
            }
            assert forall|a: int, b: int|
                0 <= a < nfl.len() && 0 <= b < nfl.len() && a != b implies nfl[a] != nfl[b] by {
                if a >= n && b >= n {
                    assert(nfl[a] == fl[a - n] && nfl[b] == fl[b - n]);
                } else if a < n && b >= n {
                    assert(nfl[b] == fl[b - n]);
                } else if a >= n && b < n {
                    assert(nfl[a] == fl[a - n]);
                }
            }
            assert forall|i: int| 1 <= i < d.len() && (#[trigger] d[i] is Vacant) implies nfl.contains(
                i as nat,
            ) by {
                if i < start {
                    assert(old_data[i] is Vacant);
                    let k = choose|k: int| 0 <= k < fl.len() && fl[k] == i as nat;
                    assert(nfl[k + n] == i as nat);
                } else {
                    assert(nfl[i - start] == i as nat);
                }
            }
            assert(self@ =~= old(self)@ + Seq::new(n as nat, |i: int| (0u8, None::<T>)));
        }
    }
}

} // verus!
