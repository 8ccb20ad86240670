//! A typed arena allocator.
//!
//! Slot 0 of the backing vector never holds a value: it stores the head of
//! the list of vacant slots (the free list). Every other vacant slot stores
//! the next link of that list, so insertion and removal take constant time.
use vstd::prelude::*;

verus! {

/// Smallest number of slots an arena is created with.
pub const MIN_CAPACITY: u32 = 16;

/// An arena may grow (double) only while it holds fewer slots than this.
pub const GROWTH_LIMIT: u32 = 0x8000_0000;

/// A handle naming one slot of an `Arena`.
#[derive(PartialEq, Eq, Structural, PartialOrd, Debug, Clone, Copy)]
pub struct Index(u32);

impl Index {
    /// The slot this handle names.
    pub closed spec fn slot(self) -> nat {
        self.0 as nat
    }
}

/// Two handles are equal exactly when they name the same slot.
pub proof fn lemma_index_slot_injective(a: Index, b: Index)
    ensures
        a.slot() == b.slot() <==> a == b,
{
}

/// Two distinct handles that both reach a value name different slots: no
/// slot is reachable through two live handles.
pub proof fn lemma_live_handles_distinct<T>(a: &Arena<T>, h1: Index, h2: Index)
    requires
        a.wf(),
        a.lookup(h1) is Some,
        a.lookup(h2) is Some,
        h1 != h2,
    ensures
        h1.slot() != h2.slot(),
{
    lemma_index_slot_injective(h1, h2);
}

/// The number of values in `s` is at most its length, and below it when
/// the first position is empty.
pub proof fn lemma_occupied_values_len<T>(s: Seq<Option<T>>)
    ensures
        occupied_values(s).len() <= s.len(),
        s.len() > 0 && s[0] is None ==> occupied_values(s).len() < s.len(),
    decreases s.len(),
{
    if s.len() > 0 {
        lemma_occupied_values_len(s.drop_last());
        if s.len() > 1 {
            assert(s.drop_last()[0] == s[0]);
        }
    }
}

/// Appending empty slots adds no values.
pub proof fn lemma_occupied_values_extend<T>(s: Seq<Option<T>>, n: nat)
    ensures
        occupied_values(s + Seq::new(n, |i: int| None::<T>)) == occupied_values(s),
    decreases n,
{
    let t = s + Seq::new(n, |i: int| None::<T>);
    if n == 0 {
        assert(t =~= s);
    } else {
        let u = s + Seq::new((n - 1) as nat, |i: int| None::<T>);
        assert(t.drop_last() =~= u);
        lemma_occupied_values_extend(s, (n - 1) as nat);
    }
}

/// Replacing position `i` of `s` by `x` changes the number of values by
/// what `x` holds less what `s[i]` held.
pub proof fn lemma_occupied_values_update<T>(s: Seq<Option<T>>, i: int, x: Option<T>)
    requires
        0 <= i < s.len(),
    ensures
        occupied_values(s.update(i, x)).len() + (if s[i] is Some {
            1int
        } else {
            0
        }) == occupied_values(s).len() + (if x is Some {
            1int
        } else {
            0
        }),
    decreases s.len(),
{
    let t = s.update(i, x);
    if i == s.len() - 1 {
        assert(t.drop_last() =~= s.drop_last());
    } else {
        assert(t.drop_last() =~= s.drop_last().update(i, x));
        lemma_occupied_values_update(s.drop_last(), i, x);
    }
}

/// An arena never holds more values than its capacity allows: slot 0 is
/// never occupied.
pub proof fn lemma_occupied_within_capacity<T>(a: &Arena<T>)
    requires
        a.wf(),
    ensures
        a.occupied_count() < a@.len(),
{
    a.lemma_wf();
    lemma_occupied_values_len(a@);
}

/// A slot of the arena.
enum Entry<T> {
    /// A vacant slot, holding the next link of the free list.
    Vacant(Option<u32>),
    /// A slot holding a value.
    Occupied(T),
}

/// An arena of `T` values addressed by `Index` handles.
pub struct Arena<T> {
    data: Vec<Entry<T>>,
    /// The free list, head first.
    free: Ghost<Seq<nat>>,
}

/// The value held by an entry, if any.
spec fn entry_value<T>(e: Entry<T>) -> Option<T> {
    match e {
        Entry::Vacant(_) => None,
        Entry::Occupied(v) => Some(v),
    }
}

/// The link that points at position `k` of the free list `fl`.
pub(crate) open spec fn link_to(fl: Seq<nat>, k: int) -> Option<u32> {
    if 0 <= k < fl.len() {
        Some(fl[k] as u32)
    } else {
        None
    }
}

/// The values held in `s`, in slot order.
pub open spec fn occupied_values<T>(s: Seq<Option<T>>) -> Seq<T>
    decreases s.len(),
{
    if s.len() == 0 {
        Seq::empty()
    } else {
        let rest = occupied_values(s.drop_last());
        match s.last() {
            Some(v) => rest.push(v),
            None => rest,
        }
    }
}

/// The slot numbers `start`, `start + 1`, ..., `end - 1`.
pub open spec fn slot_range(start: nat, end: nat) -> Seq<nat> {
    Seq::new((end - start) as nat, |k: int| (start + k) as nat)
}

impl<T> View for Arena<T> {
    /// Each slot's value, `None` for a vacant slot (slot 0 included).
    type V = Seq<Option<T>>;

    closed spec fn view(&self) -> Seq<Option<T>> {
        self.data@.map_values(|e: Entry<T>| entry_value(e))
    }
}

impl<T> Arena<T> {
    /// The free list: the vacant slots in the order they will be reused.
    pub closed spec fn free_list(&self) -> Seq<nat> {
        self.free@
    }

    /// The value that `index` names, if its slot is occupied.
    pub open spec fn lookup(&self, index: Index) -> Option<T> {
        if index.slot() < self@.len() {
            self@[index.slot() as int]
        } else {
            None
        }
    }

    /// Number of values held.
    pub open spec fn occupied_count(&self) -> nat {
        occupied_values(self@).len()
    }

    /// The arena's invariant: slot 0 heads the free list, and the free list
    /// runs through every vacant slot other than 0 exactly once.
    pub closed spec fn wf(&self) -> bool {
        let d = self.data@;
        let fl = self.free@;
        &&& 1 <= d.len() <= u32::MAX
        &&& d[0] == Entry::<T>::Vacant(link_to(fl, 0))
        &&& fl.no_duplicates()
        &&& forall|k: int|
            0 <= k < fl.len() ==> 1 <= #[trigger] fl[k] < d.len() && d[fl[k] as int]
                == Entry::<T>::Vacant(link_to(fl, k + 1))
        &&& forall|i: int| 1 <= i < d.len() && (#[trigger] d[i] is Vacant) ==> fl.contains(i as nat)
    }

    /// What a well-formed arena shows through its view and free list.
    pub proof fn lemma_wf(&self)
        requires
            self.wf(),
        ensures
            1 <= self@.len() <= u32::MAX,
            self@[0] is None,
            self.free_list().no_duplicates(),
            forall|k: int|
                0 <= k < self.free_list().len() ==> 1 <= #[trigger] self.free_list()[k]
                    < self@.len(),
            forall|i: int|
                1 <= i < self@.len() ==> (#[trigger] self@[i] is None <==> self.free_list().contains(
                    i as nat,
                )),
    {
        assert forall|i: int| 1 <= i < self@.len() implies (#[trigger] self@[i] is None
            <==> self.free_list().contains(i as nat)) by {
            if self.free_list().contains(i as nat) {
                let k = choose|k: int| 0 <= k < self.free@.len() && self.free@[k] == i as nat;
                assert(self.free@[k] == i as nat);
            }
        }
    }

    /// Creates an arena with `MIN_CAPACITY` slots.
    pub fn new() -> (r: Arena<T>)
        ensures
            r.wf(),
            r@ == Seq::new(MIN_CAPACITY as nat, |i: int| None::<T>),
            r.free_list() == slot_range(1, MIN_CAPACITY as nat),
    {
        Arena::with_capacity(MIN_CAPACITY)
    }

    /// Creates an arena with `max(n, MIN_CAPACITY)` slots. Slot 0 heads the
    /// free list, which links every other slot in ascending order.
    pub fn with_capacity(n: u32) -> (r: Arena<T>)
        ensures
            r.wf(),
            r@ == Seq::new(
                (if n < MIN_CAPACITY {
                    MIN_CAPACITY
                } else {
                    n
                }) as nat,
                |i: int| None::<T>,
            ),
            r.free_list() == slot_range(1, r@.len()),
    {
        let mut data: Vec<Entry<T>> = Vec::new();
        data.push(Entry::Vacant(None));
        let mut arena = Arena { data, free: Ghost(Seq::empty()) };
        proof {
            assert(arena.data@[0] == Entry::<T>::Vacant(link_to(arena.free@, 0)));
        }
        let total: u32 = if n < MIN_CAPACITY {
            MIN_CAPACITY
        } else {
            n
        };
        arena.reserve(total - 1);
        proof {
            assert(arena.free@ =~= slot_range(1, arena@.len()));
            assert(arena@ =~= Seq::new(total as nat, |i: int| None::<T>));
        }
        arena
    }

    /// Number of slots held, the reserved slot 0 included. The arena holds
    /// one value fewer than this before it grows.
    pub fn capacity(&self) -> (r: u32)
        requires
            self.wf(),
        ensures
            r == self@.len(),
    {
        self.data.len() as u32
    }

    /// The slot at the head of the free list, if any slot is vacant.
    pub fn get_free(&self) -> (r: Option<u32>)
        requires
            self.wf(),
        ensures
            r == (if self.free_list().len() > 0 {
                Some(self.free_list()[0] as u32)
            } else {
                None
            }),
    {
        match &self.data[0] {
            Entry::Vacant(next) => *next,
            Entry::Occupied(_) => None,
        }
    }

    /// Sets the free-list head stored in slot 0.
    fn set_free(&mut self, next: Option<u32>)
        requires
            old(self).data@.len() >= 1,
        ensures
            final(self).data@ == old(self).data@.update(0, Entry::<T>::Vacant(next)),
            final(self).free == old(self).free,
    {
        self.data.set(0, Entry::Vacant(next));
    }

    /// Places `item` in the slot at the head of the free list. When no slot
    /// is vacant the arena is left as it was and `item` is handed back.
    pub fn try_insert(&mut self, item: T) -> (r: Result<Index, T>)
        requires
            old(self).wf(),
        ensures
            final(self).wf(),
            r is Err <==> (forall|j: int| 1 <= j < old(self)@.len() ==> old(self)@[j] is Some),
            match r {
                Ok(i) => {
                    &&& old(self).free_list().len() > 0
                    &&& i.slot() == old(self).free_list()[0]
                    &&& 1 <= i.slot() < old(self)@.len()
                    &&& old(self)@[i.slot() as int] is None
                    &&& final(self)@ == old(self)@.update(i.slot() as int, Some(item))
                    &&& final(self).free_list() == old(self).free_list().drop_first()
                },
                Err(v) => old(self).free_list().len() == 0 && v == item && *final(self) == *old(self),
            },
    {
        proof {
            self.lemma_wf();
        }
        match self.get_free() {
            None => Err(item),
            Some(free) => {
                let ghost fl = self.free@;
                let ghost old_data = self.data@;
                let index = free as usize;
                let mut entry = Entry::Occupied(item);
                std::mem::swap(&mut self.data[index], &mut entry);
                match entry {
                    Entry::Occupied(_) => unreached(),
                    Entry::Vacant(next) => {
                        self.set_free(next);
                        self.free = Ghost(fl.drop_first());
                        proof {
                            let d = self.data@;
                            let nfl = self.free@;
                            assert(fl[0] == free as nat);
                            assert(next == link_to(fl, 1));
                            assert(d[0] == Entry::<T>::Vacant(link_to(nfl, 0)));
                            assert forall|k: int| 0 <= k < nfl.len() implies 1 <= #[trigger] nfl[k]
                                < d.len() && d[nfl[k] as int] == Entry::<T>::Vacant(
                                link_to(nfl, k + 1),
                            ) by {
                                assert(nfl[k] == fl[k + 1]);
                                assert(fl[k + 1] != fl[0]);
                                assert(link_to(nfl, k + 1) == link_to(fl, k + 2));
                            }
                            assert forall|i: int|
                                1 <= i < d.len() && (#[trigger] d[i] is Vacant) implies nfl.contains(
                                i as nat,
                            ) by {
                                assert(old_data[i] is Vacant);
                                let k = choose|k: int| 0 <= k < fl.len() && fl[k] == i as nat;
                                assert(k != 0);
                                assert(nfl[k - 1] == i as nat);
                            }
                            assert(self@ =~= old(self)@.update(free as int, Some(item)));
                            assert(old(self)@[free as int] is None);
                        }
                        Ok(Index(free))
                    },
                }
            },
        }
    }

    /// Places `item` in a vacant slot, doubling the number of slots first
    /// when none is vacant. Existing values keep their slots.
    pub fn insert(&mut self, item: T) -> (r: Index)
        requires
            old(self).wf(),
            old(self)@.len() < GROWTH_LIMIT,
        ensures
            final(self).wf(),
            1 <= r.slot() < final(self)@.len(),
            r.slot() < old(self)@.len() ==> old(self)@[r.slot() as int] is None,
            final(self).lookup(r) == Some(item),
            final(self).occupied_count() == old(self).occupied_count() + 1,
            old(self)@.len() <= final(self)@.len() <= 2 * old(self)@.len(),
            forall|j: int|
                0 <= j < final(self)@.len() && j != r.slot() ==> #[trigger] final(self)@[j] == (
                if j < old(self)@.len() {
                    old(self)@[j]
                } else {
                    None
                }),
            old(self).free_list().len() > 0 ==> {
                &&& r.slot() == old(self).free_list()[0]
                &&& final(self)@ == old(self)@.update(r.slot() as int, Some(item))
                &&& final(self).free_list() == old(self).free_list().drop_first()
            },
            old(self).free_list().len() == 0 ==> {
                &&& r.slot() == old(self)@.len()
                &&& final(self)@.len() == 2 * old(self)@.len()
                &&& final(self).free_list() == slot_range(
                    old(self)@.len() + 1,
                    2 * old(self)@.len(),
                )
            },
    {
        let r = match self.try_insert(item) {
            Ok(idx) => idx,
            Err(item) => self.reserve_insert(item),
        };
        proof {
            let before = old(self)@;
            if old(self).free_list().len() > 0 {
                lemma_occupied_values_update(before, r.slot() as int, Some(item));
            } else {
                let grown = before + Seq::new(before.len(), |i: int| None::<T>);
                lemma_occupied_values_extend(before, before.len());
                lemma_occupied_values_update(grown, r.slot() as int, Some(item));
            }
        }
        r
    }

    /// Doubles the number of slots, then inserts `item` into the first new one.
    fn reserve_insert(&mut self, item: T) -> (r: Index)
        requires
            old(self).wf(),
            old(self).free_list().len() == 0,
            old(self)@.len() < GROWTH_LIMIT,
        ensures
            final(self).wf(),
            r.slot() == old(self)@.len(),
            final(self)@ == (old(self)@ + Seq::new(old(self)@.len(), |i: int| None::<T>)).update(
                r.slot() as int,
                Some(item),
            ),
            final(self).free_list() == slot_range(old(self)@.len() + 1, 2 * old(self)@.len()),
    {
        let ghost len = self@.len();
        proof {
            self.lemma_wf();
        }
        let cap = self.capacity();
        self.reserve(cap);
        proof {
            assert(self.free_list()[0] == len);
        }
        match self.try_insert(item) {
            Ok(idx) => {
                proof {
                    assert(self.free_list() =~= slot_range(len + 1, 2 * len));
                }
                idx
            },
            Err(_) => unreached(),
        }
    }

    /// Takes the value out of the slot that `index` names and puts the slot
    /// at the head of the free list. A vacant or unknown slot gives `None`
    /// and leaves the arena as it was.
    pub fn remove(&mut self, index: Index) -> (r: Option<T>)
        requires
            old(self).wf(),
        ensures
            final(self).wf(),
            r == old(self).lookup(index),
            final(self).lookup(index) is None,
            r is Some ==> final(self).occupied_count() + 1 == old(self).occupied_count(),
            r is Some ==> {
                &&& final(self)@ == old(self)@.update(index.slot() as int, None)
                &&& final(self).free_list() == seq![index.slot()] + old(self).free_list()
            },
            r is None ==> *final(self) == *old(self),
    {
        proof {
            self.lemma_wf();
        }
        let i = index.0 as usize;
        if i >= self.data.len() {
            return None;
        }
        match &self.data[i] {
            Entry::Vacant(_) => {
                return None;
            },
            Entry::Occupied(_) => {},
        }
        let ghost fl = self.free@;
        let ghost old_data = self.data@;
        let free = self.get_free();
        let mut entry = Entry::Vacant(free);
        std::mem::swap(&mut self.data[i], &mut entry);
        self.set_free(Some(index.0));
        self.free = Ghost(seq![i as nat] + fl);
        proof {
            let d = self.data@;
            let nfl = self.free@;
            assert(!fl.contains(i as nat));
            assert(d[0] == Entry::<T>::Vacant(link_to(nfl, 0)));
            assert forall|k: int| 0 <= k < nfl.len() implies 1 <= #[trigger] nfl[k] < d.len()
                && d[nfl[k] as int] == Entry::<T>::Vacant(link_to(nfl, k + 1)) by {
                if k > 0 {
                    assert(nfl[k] == fl[k - 1]);
                    assert(link_to(nfl, k + 1) == link_to(fl, k));
                } else {
                    assert(link_to(nfl, 1) == link_to(fl, 0));
                }
            }
            assert forall|a: int, b: int|
                0 <= a < nfl.len() && 0 <= b < nfl.len() && a != b implies nfl[a] != nfl[b] by {
                if a > 0 {
                    assert(nfl[a] == fl[a - 1]);
                }
                if b > 0 {
                    assert(nfl[b] == fl[b - 1]);
                }
            }
            assert forall|j: int| 1 <= j < d.len() && (#[trigger] d[j] is Vacant) implies nfl.contains(
                j as nat,
            ) by {
                if j != i {
                    assert(old_data[j] is Vacant);
                    let k = choose|k: int| 0 <= k < fl.len() && fl[k] == j as nat;
                    assert(nfl[k + 1] == j as nat);
                } else {
                    assert(nfl[0] == j as nat);
                }
            }
            assert(self@ =~= old(self)@.update(i as int, None));
        }
        proof {
            lemma_occupied_values_update(old(self)@, i as int, None);
        }
        match entry {
            Entry::Occupied(item) => Some(item),
            Entry::Vacant(_) => unreached(),
        }
    }

    /// The value that `index` names, if its slot is occupied.
    pub fn get(&self, index: Index) -> (r: Option<&T>)
        requires
            self.wf(),
        ensures
            match r {
                Some(v) => self.lookup(index) == Some(*v),
                None => self.lookup(index) is None,
            },
    {
        let i = index.0 as usize;
        if i >= self.data.len() {
            return None;
        }
        match &self.data[i] {
            Entry::Occupied(v) => Some(v),
            Entry::Vacant(_) => None,
        }
    }

    /// A mutable reference to the value that `index` names, if its slot is
    /// occupied. Writing through it changes that slot alone.
    pub fn get_mut(&mut self, index: Index) -> (r: Option<&mut T>)
        requires
            old(self).wf(),
        ensures
            r matches Some(v) ==> old(self).lookup(index) == Some(*v),
            r matches Some(v) ==> final(self)@ == old(self)@.update(index.slot() as int, Some(*final(v))),
            r matches Some(v) ==> final(self).free_list() == old(self).free_list(),
            r matches Some(v) ==> final(self).wf(),
            r is None ==> old(self).lookup(index) is None && *final(self) == *old(self),
    {
        let i = index.0 as usize;
        if i >= self.data.len() {
            return None;
        }
        if let Entry::Vacant(_) = &self.data[i] {
            return None;
        }
        match &mut self.data[i] {
            Entry::Occupied(v) => Some(v),
            Entry::Vacant(_) => unreached(),
        }
    }

    /// References to every held value, in slot order.
    pub fn iter(&self) -> (r: Vec<&T>)
        requires
            self.wf(),
        ensures
            r@.map_values(|v: &T| *v) == occupied_values(self@),
    {
        let mut out: Vec<&T> = Vec::new();
        let mut i: usize = 0;
        while i < self.data.len()
            invariant
                i <= self.data@.len(),
                out@.map_values(|v: &T| *v) == occupied_values(self@.subrange(0, i as int)),
            decreases self.data@.len() - i,
        {
            proof {
                assert(self@.subrange(0, i + 1).drop_last() =~= self@.subrange(0, i as int));
            }
            if let Entry::Occupied(v) = &self.data[i] {
                out.push(v);
            }
            i = i + 1;
        }
        proof {
            assert(self@.subrange(0, self@.len() as int) =~= self@);
        }
        out
    }

    /// Appends `n` vacant slots, linked in ascending order in front of the
    /// current free list.
    #[verifier::rlimit(100)]
    fn reserve(&mut self, n: u32)
        requires
            old(self).wf(),
            n >= 1,
            old(self)@.len() + n <= u32::MAX,
        ensures
            final(self).wf(),
            final(self)@ == old(self)@ + Seq::new(n as nat, |i: int| None::<T>),
            final(self).free_list() == slot_range(old(self)@.len(), (old(self)@.len() + n) as nat)
                + old(self).free_list(),
    {
        let ghost old_data = self.data@;
        let ghost fl = self.free@;
        let start = self.data.len() as u32;
        let end = start + n;
        let head = self.get_free();
        let mut idx: u32 = start;
        while idx < end - 1
            invariant
                start <= idx <= end - 1,
                end == start + n,
                start == old_data.len(),
                self.data@.len() == idx,
                self.free@ == fl,
                forall|j: int| 0 <= j < start ==> self.data@[j] == old_data[j],
                forall|j: int|
                    start <= j < idx ==> #[trigger] self.data@[j] == Entry::<T>::Vacant(
                        Some((j + 1) as u32),
                    ),
            decreases end - idx,
        {
            self.data.push(Entry::Vacant(Some(idx + 1)));
            idx = idx + 1;
        }
        self.data.push(Entry::Vacant(head));
        self.set_free(Some(start));
        let ghost added = slot_range(start as nat, end as nat);
        self.free = Ghost(added + fl);
        proof {
            let d = self.data@;
            let nfl = self.free@;
            assert(fl.len() > 0 ==> head == Some(fl[0] as u32));
            assert(fl.len() == 0 ==> head is None);
            assert(d[0] == Entry::<T>::Vacant(link_to(nfl, 0)));
            assert forall|k: int| 0 <= k < nfl.len() implies 1 <= #[trigger] nfl[k] < d.len()
                && d[nfl[k] as int] == Entry::<T>::Vacant(link_to(nfl, k + 1)) by {
                if k < n {
                    assert(nfl[k] == start + k);
                    if k + 1 < n {
                        assert(nfl[k + 1] == start + k + 1);
                    } else {
                        assert(link_to(nfl, k + 1) == link_to(fl, 0));
                    }
                } else {
                    assert(nfl[k] == fl[k - n]);
                    assert(link_to(nfl, k + 1) == link_to(fl, k + 1 - n));
                }
            }
            assert forall|a: int, b: int|
                0 <= a < nfl.len() && 0 <= b < nfl.len() && a != b implies nfl[a] != nfl[b] by {
                if a >= n && b >= n {
                    assert(nfl[a] == fl[a - n] && nfl[b] == fl[b - n]);
                } else if a < n && b >= n {
                    assert(nfl[b] == fl[b - n]);
                } else if a >= n && b < n {
                    assert(nfl[a] == fl[a - n]);
                }
            }
            assert forall|i: int| 1 <= i < d.len() && (#[trigger] d[i] is Vacant) implies nfl.contains(
                i as nat,
            ) by {
                if i < start {
                    assert(old_data[i] is Vacant);
                    let k = choose|k: int| 0 <= k < fl.len() && fl[k] == i as nat;
                    assert(nfl[k + n] == i as nat);
                } else {
                    assert(nfl[i - start] == i as nat);
                }
            }
            assert(self@ =~= old(self)@ + Seq::new(n as nat, |i: int| None::<T>));
        }
    }
}

} // verus!
