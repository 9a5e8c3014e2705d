//! The generational arena: a slot store whose handles remain valid across
//! slot reuse.  A handle names one slot of one specific arena instance at one
//! specific point in that slot's reuse history; any mismatch resolves to
//! "absent", never to the wrong item.

use vstd::prelude::*;

use rayon::iter::IndexedParallelIterator;
use rayon::iter::IntoParallelRefIterator;
use rayon::iter::ParallelIterator;

use crate::merge::{
    MergeState,
    InitMerger,
    InProgressMerger,
    merge_state_inv,
    entries_map,
    entries_distinct,
    lemma_entries_map_dom,
    lemma_entries_map_index,
};

verus! {

/// A validated handle into one specific arena instance.  It records the slot
/// index, the identity of the arena that issued it, and the serial number of
/// the insertion that produced it.
#[derive(Clone, Copy, PartialEq, Eq, Hash, Debug, Structural)]
pub struct Ref {
    index: usize,
    set_uid: u64,
    serial: u64,
}

impl Ref {
    /// The slot index this handle names.
    pub closed spec fn slot(self) -> int {
        self.index as int
    }

    /// The identity of the arena instance that issued this handle.
    pub closed spec fn uid(self) -> u64 {
        self.set_uid
    }

    /// The serial number of the insertion that produced this handle.
    pub closed spec fn serial(self) -> u64 {
        self.serial
    }
}

/// An explicitly-owned source of arena identities.  Every arena must be
/// created with an identity that no other arena of the same process uses;
/// minting them all from one counter guarantees that.
pub struct UidCounter {
    next: u64,
}

impl UidCounter {
    /// The next identity this counter will hand out.
    pub closed spec fn spec_next(self) -> u64 {
        self.next
    }

    pub fn new() -> (r: UidCounter)
        ensures
            r.spec_next() == 0,
    {
        UidCounter { next: 0 }
    }

    /// Mints an identity.  Successive calls return strictly increasing
    /// values, so no identity is ever issued twice.
    pub fn fresh_uid(&mut self) -> (r: u64)
        requires
            old(self).spec_next() < u64::MAX,
        ensures
            r == old(self).spec_next(),
            final(self).spec_next() == old(self).spec_next() + 1,
    {
        let r = self.next;
        self.next = self.next + 1;
        r
    }
}

/// One slot of the arena.  `serial` identifies the insertion that most
/// recently (re)initialised the slot; `state` is `Regular` outside of a
/// merge, and `Reloc`/`Moved` only transiently while a merge is in progress.
pub(crate) struct Cell<T> {
    pub(crate) serial: u64,
    pub(crate) state: CellState<T>,
}

#[allow(inconsistent_fields)]
pub(crate) enum CellState<T> {
    Regular { item: Option<T> },
    Reloc { item: T, reloc_index: usize },
    Moved { reloc_index: usize },
}

impl<T> CellState<T> {
    /// Whether this slot currently holds a live, ordinarily-reachable item.
    pub(crate) open spec fn is_live(self) -> bool {
        match self {
            CellState::Regular { item } => item is Some,
            _ => false,
        }
    }

    /// Whether this slot is in the ordinary (non-merge) state.
    pub(crate) open spec fn is_regular(self) -> bool {
        match self {
            CellState::Regular { .. } => true,
            _ => false,
        }
    }

    /// Whether this slot is vacant (free for reuse).
    pub(crate) open spec fn is_vacant(self) -> bool {
        match self {
            CellState::Regular { item } => item is None,
            _ => false,
        }
    }

    /// The item a slot carries, for slots in the `Regular`-occupied or
    /// `Reloc` states.
    pub(crate) open spec fn live_item(self) -> T {
        match self {
            CellState::Regular { item } => item.unwrap(),
            CellState::Reloc { item, .. } => item,
            CellState::Moved { .. } => arbitrary(),
        }
    }
}

/// The generational slot store.  Handles issued by `insert` stay valid until
/// the item is removed, and can never alias a later occupant of the same
/// slot: every insertion gets a fresh, strictly increasing serial number.
pub struct Arena<T> {
    uid: u64,
    serial: u64,
    cells: Vec<Cell<T>>,
    free: Vec<usize>,
    len: usize,
}

impl<T> Arena<T> {
    /// The identity of this arena instance.
    pub closed spec fn spec_uid(self) -> u64 {
        self.uid
    }

    /// The serial number of the most recent insertion.
    pub closed spec fn spec_serial(self) -> u64 {
        self.serial
    }

    /// The number of live items.
    pub closed spec fn spec_len(self) -> int {
        self.len as int
    }

    pub(crate) closed spec fn cells_view(self) -> Seq<Cell<T>> {
        self.cells@
    }

    pub(crate) closed spec fn free_view(self) -> Seq<usize> {
        self.free@
    }

    /// Whether slot `i` holds a live item.
    pub(crate) closed spec fn cell_live(self, i: int) -> bool {
        0 <= i < self.cells@.len() && self.cells@[i].state.is_live()
    }

    /// The handle that currently names slot `i`.
    pub(crate) closed spec fn ref_at(self, i: int) -> Ref {
        Ref { index: i as usize, set_uid: self.uid, serial: self.cells@[i].serial }
    }

    /// Whether `r` is a valid handle to a live item of this arena: the owner
    /// matches, the slot exists, and the slot's serial still matches the one
    /// recorded in the handle.
    pub closed spec fn live_ref(self, r: Ref) -> bool {
        &&& r.uid() == self.uid
        &&& 0 <= r.slot() < self.cells@.len()
        &&& self.cells@[r.slot()].serial == r.serial()
        &&& self.cells@[r.slot()].state.is_live()
    }

    /// The mathematical contents of the arena: a finite map from each valid
    /// live handle to the item it names.
    pub closed spec fn items(self) -> Map<Ref, T> {
        Map::new(|r: Ref| self.live_ref(r), |r: Ref| self.cells@[r.slot()].state.live_item())
    }


    /// Internal consistency of the free list: its entries are in-range,
    /// vacant, pairwise distinct, and cover every vacant slot.
    pub(crate) closed spec fn free_ok(self) -> bool {
        &&& forall|k: int|
            0 <= k < self.free@.len() ==> 0 <= #[trigger] self.free@[k] < self.cells@.len()
        &&& forall|k: int|
            0 <= k < self.free@.len() ==> self.cells@[#[trigger] self.free@[k] as int].state.is_vacant()
        &&& forall|k1: int, k2: int|
            0 <= k1 < k2 < self.free@.len() ==> self.free@[k1] != self.free@[k2]
        &&& forall|i: int|
            0 <= i < self.cells@.len() && (#[trigger] self.cells@[i]).state.is_vacant()
                ==> self.free@.contains(i as usize)
    }

    /// Well-formedness outside of a merge: every slot is in the `Regular`
    /// state, slot serials never exceed the arena's counter, the free list is
    /// exact, and `len` counts the occupied slots.
    pub closed spec fn wf(self) -> bool {
        &&& forall|i: int|
            0 <= i < self.cells@.len() ==> (#[trigger] self.cells@[i]).state.is_regular()
        &&& forall|i: int|
            0 <= i < self.cells@.len() ==> (#[trigger] self.cells@[i]).serial <= self.serial
        &&& self.free_ok()
        &&& self.len as int == self.cells@.len() - self.free@.len()
    }

    /// Whether another item can be inserted without exhausting the serial
    /// counter or the address space.
    pub closed spec fn can_insert(self) -> bool {
        &&& self.serial < u64::MAX
        &&& self.cells@.len() < usize::MAX
    }

    /// Creates an empty arena owning the identity `uid`.  Identities must be
    /// minted from a single `UidCounter` so that no two arenas share one.
    pub fn new(uid: u64) -> (r: Arena<T>)
        ensures
            r.wf(),
            r.items() == Map::<Ref, T>::empty(),
            r.spec_uid() == uid,
            r.spec_serial() == 0,
            r.spec_len() == 0,
            r.spec_slots() == 0,
            r.can_insert(),
    {
        let r = Arena { uid, serial: 0, cells: Vec::new(), free: Vec::new(), len: 0 };
        proof {
            assert(r.items() =~= Map::<Ref, T>::empty());
        }
        r
    }

    /// Creates an empty arena with at least `capacity` slots preallocated.
    pub fn with_capacity(uid: u64, capacity: usize) -> (r: Arena<T>)
        ensures
            r.wf(),
            r.items() == Map::<Ref, T>::empty(),
            r.spec_uid() == uid,
            r.spec_serial() == 0,
            r.spec_len() == 0,
            r.spec_slots() == 0,
            r.can_insert(),
    {
        let r = Arena {
            uid,
            serial: 0,
            cells: Vec::with_capacity(capacity),
            free: Vec::new(),
            len: 0,
        };
        proof {
            assert(r.items() =~= Map::<Ref, T>::empty());
        }
        r
    }

    /// The exact number of live items.
    pub fn len(&self) -> (r: usize)
        ensures
            r == self.spec_len(),
    {
        self.len
    }

    /// The serial number of the most recent insertion.
    pub fn serial(&self) -> (r: u64)
        ensures
            r == self.spec_serial(),
    {
        self.serial
    }

    /// Removes every item while keeping the backing allocation, the arena's
    /// identity and its serial counter, so that handles issued before the
    /// call can never alias items inserted after it.
    pub fn clear(&mut self)
        ensures
            final(self).wf(),
            final(self).items() == Map::<Ref, T>::empty(),
            final(self).spec_uid() == old(self).spec_uid(),
            final(self).spec_serial() == old(self).spec_serial(),
            final(self).spec_len() == 0,
            final(self).can_insert() == (old(self).spec_serial() < u64::MAX),
    {
        self.cells.clear();
        self.free.clear();
        self.len = 0;
        proof {
            assert(self.items() =~= Map::<Ref, T>::empty());
        }
    }
}

/// A freshly (re)initialised, still-empty slot.
pub(crate) open spec fn vacant_cell<T>(serial: u64) -> Cell<T> {
    Cell { serial, state: CellState::Regular { item: None } }
}

impl<T> Arena<T> {
    /// Reserves a slot: pops the most recently freed slot if one exists,
    /// otherwise appends a new one.  The slot is left empty; the returned
    /// handle carries the freshly assigned serial number.
    fn insert_empty(&mut self) -> (r: Ref)
        requires
            old(self).serial < u64::MAX,
            old(self).cells@.len() < usize::MAX,
            old(self).len < usize::MAX,
            old(self).free@.len() > 0 ==> ({
                let fi = old(self).free@.last() as int;
                0 <= fi < old(self).cells@.len() && old(self).cells@[fi].state.is_vacant()
            }),
        ensures
            final(self).uid == old(self).uid,
            final(self).serial == old(self).serial + 1,
            final(self).len == old(self).len + 1,
            r.uid() == old(self).uid,
            r.serial() == old(self).serial + 1,
            0 <= r.slot() < final(self).cells@.len(),
            final(self).cells@[r.slot()] == vacant_cell::<T>((old(self).serial + 1) as u64),
            if old(self).free@.len() > 0 {
                &&& r.slot() == old(self).free@.last() as int
                &&& final(self).cells@ == old(self).cells@.update(
                    r.slot(),
                    vacant_cell::<T>((old(self).serial + 1) as u64),
                )
                &&& final(self).free@ == old(self).free@.drop_last()
            } else {
                &&& r.slot() == old(self).cells@.len()
                &&& final(self).cells@ == old(self).cells@.push(
                    vacant_cell::<T>((old(self).serial + 1) as u64),
                )
                &&& final(self).free@ == old(self).free@
            },
    {
        self.serial = self.serial + 1;
        let serial = self.serial;
        let index: usize;
        if let Some(free_index) = self.free.pop() {
            index = free_index;
            let cell = &mut self.cells[free_index];
            *cell = Cell { serial, state: CellState::Regular { item: None } };
        } else {
            index = self.cells.len();
            self.cells.push(Cell { serial, state: CellState::Regular { item: None } });
        }
        self.len = self.len + 1;
        Ref { index, serial, set_uid: self.uid }
    }

    /// Inserts an item, reusing the most recently freed slot if any (else
    /// appending), and returns a fresh handle to it.  The handle's serial
    /// number is strictly larger than that of every handle this arena issued
    /// before, so it aliases none of them.
    pub fn insert(&mut self, item: T) -> (r: Ref)
        requires
            old(self).wf(),
            old(self).can_insert(),
        ensures
            final(self).wf(),
            final(self).spec_uid() == old(self).spec_uid(),
            final(self).spec_serial() == old(self).spec_serial() + 1,
            final(self).spec_len() == old(self).spec_len() + 1,
            r.uid() == old(self).spec_uid(),
            r.serial() == old(self).spec_serial() + 1,
            !old(self).items().contains_key(r),
            final(self).live_ref(r),
            final(self).items() == old(self).items().insert(r, item),
            final(self).spec_slots() <= old(self).spec_slots() + 1,
            old(self).spec_serial() + 1 < u64::MAX && old(self).spec_slots() + 1 < usize::MAX
                ==> final(self).can_insert(),
    {
        proof {
            assert(old(self).len < usize::MAX);
        }
        let ghost o = *self;
        let r = self.insert_empty();
        let ghost mid = *self;
        let idx = r.index;
        let cell = &mut self.cells[idx];
        cell.state = CellState::Regular { item: Some(item) };
        proof {
            lemma_insert_ok(o, mid, *self, r, item);
        }
        r
    }

    /// Removes the item named by `set_ref` and frees its slot, iff the
    /// handle is valid for this instance; otherwise returns `None` with no
    /// effect, including when the handle belongs to a different arena.
    pub fn remove(&mut self, set_ref: Ref) -> (r: Option<T>)
        requires
            old(self).wf(),
        ensures
            final(self).wf(),
            final(self).spec_uid() == old(self).spec_uid(),
            final(self).spec_serial() == old(self).spec_serial(),
            final(self).can_insert() == old(self).can_insert(),
            final(self).spec_slots() == old(self).spec_slots(),
            r is Some ==> old(self).items().contains_key(set_ref)
                && r.unwrap() == old(self).items()[set_ref]
                && final(self).items() == old(self).items().remove(set_ref)
                && final(self).spec_len() == old(self).spec_len() - 1,
            r is None ==> !old(self).items().contains_key(set_ref)
                && final(self).items() == old(self).items()
                && final(self).spec_len() == old(self).spec_len(),
    {
        if set_ref.set_uid != self.uid {
            return None;
        }
        if set_ref.index >= self.cells.len() {
            return None;
        }
        if self.cells[set_ref.index].serial != set_ref.serial {
            return None;
        }
        let live = match &self.cells[set_ref.index].state {
            CellState::Regular { item: Some(_) } => true,
            _ => false,
        };
        if !live {
            return None;
        }
        let ghost o = *self;
        proof {
            lemma_free_shorter_than_cells(o, set_ref.slot());
        }
        let cell = &mut self.cells[set_ref.index];
        let it = match &mut cell.state {
            CellState::Regular { item } => item.take(),
            _ => vstd::pervasive::unreached(),
        };
        self.free.push(set_ref.index);
        self.len = self.len - 1;
        proof {
            lemma_remove_ok(o, *self, set_ref);
        }
        it
    }

    /// Looks up the item named by `set_ref`, returning it iff the handle is
    /// valid for this instance; a foreign or stale handle yields `None`.
    pub fn get(&self, set_ref: Ref) -> (r: Option<&T>)
        ensures
            r is Some ==> self.items().contains_key(set_ref)
                && *r.unwrap() == self.items()[set_ref],
            r is None ==> !self.items().contains_key(set_ref),
    {
        if set_ref.set_uid != self.uid {
            return None;
        }
        if set_ref.index >= self.cells.len() {
            return None;
        }
        let cell = &self.cells[set_ref.index];
        if cell.serial != set_ref.serial {
            return None;
        }
        match &cell.state {
            CellState::Regular { item: Some(it) } => Some(it),
            _ => None,
        }
    }

    /// Mutable lookup: returns a mutable borrow of the item named by
    /// `set_ref` iff the handle is valid for this instance.  The slot keeps
    /// its serial, so the handle stays valid and no other handle changes.
    pub fn get_mut(&mut self, set_ref: Ref) -> (r: Option<&mut T>)
        ensures
            final(self).spec_uid() == old(self).spec_uid(),
            final(self).spec_serial() == old(self).spec_serial(),
            final(self).spec_len() == old(self).spec_len(),
            final(self).can_insert() == old(self).can_insert(),
            old(self).wf() ==> final(self).wf(),
            r is Some ==> old(self).items().contains_key(set_ref)
                && *r.unwrap() == old(self).items()[set_ref]
                && final(self).items() =~= old(self).items().insert(set_ref, *final(r.unwrap())),
            r is None ==> !old(self).items().contains_key(set_ref)
                && final(self).items() == old(self).items(),
    {
        if set_ref.set_uid != self.uid {
            return None;
        }
        if set_ref.index >= self.cells.len() {
            return None;
        }
        if self.cells[set_ref.index].serial != set_ref.serial {
            return None;
        }
        let live = match &self.cells[set_ref.index].state {
            CellState::Regular { item: Some(_) } => true,
            _ => false,
        };
        if !live {
            return None;
        }
        let cell = &mut self.cells[set_ref.index];
        match &mut cell.state {
            CellState::Regular { item: Some(it) } => Some(it),
            _ => vstd::pervasive::unreached(),
        }
    }
}

impl<T> Arena<T> {
    /// Enumerates the live items as `(handle, item)` pairs in ascending slot
    /// order (not insertion order).  The result is sound (every pair is a
    /// valid handle with its item), complete (every live handle appears), and
    /// free of duplicates; each call is independent of every other.
    pub fn iter(&self) -> (r: Vec<(Ref, &T)>)
        ensures
            forall|k: int|
                0 <= k < r@.len() ==> self.items().contains_key((#[trigger] r@[k]).0) && *r@[k].1
                    == self.items()[r@[k].0],
            forall|k1: int, k2: int|
                0 <= k1 < k2 < r@.len() ==> r@[k1].0.slot() < r@[k2].0.slot(),
            forall|h: Ref| #[trigger]
                self.items().contains_key(h) ==> exists|k: int|
                    0 <= k < r@.len() && (#[trigger] r@[k]).0 == h,
    {
        let mut out: Vec<(Ref, &T)> = Vec::new();
        let n = self.cells.len();
        let mut i: usize = 0;
        while i < n
            invariant
                n == self.cells@.len(),
                i <= n,
                forall|k: int|
                    0 <= k < out@.len() ==> self.items().contains_key((#[trigger] out@[k]).0)
                        && *out@[k].1 == self.items()[out@[k].0],
                forall|k: int| 0 <= k < out@.len() ==> 0 <= (#[trigger] out@[k]).0.slot() < i,
                forall|k1: int, k2: int|
                    0 <= k1 < k2 < out@.len() ==> out@[k1].0.slot() < out@[k2].0.slot(),
                forall|h: Ref| #[trigger]
                    self.live_ref(h) && h.slot() < i ==> exists|k: int|
                        0 <= k < out@.len() && (#[trigger] out@[k]).0 == h,
            decreases n - i,
        {
            let ghost out0 = out@;
            let cell = &self.cells[i];
            match &cell.state {
                CellState::Regular { item: Some(it) } => {
                    let rf = Ref { index: i, set_uid: self.uid, serial: cell.serial };
                    out.push((rf, it));
                    proof {
                        assert(self.live_ref(rf));
                        assert forall|h: Ref| #[trigger]
                            self.live_ref(h) && h.slot() < i + 1 implies exists|k: int|
                            0 <= k < out@.len() && (#[trigger] out@[k]).0 == h by {
                            if h.slot() == i as int {
                                assert(out@[out@.len() - 1].0 == h);
                            } else {
                                let k = choose|k: int|
                                    0 <= k < out0.len() && (#[trigger] out0[k]).0 == h;
                                assert(out@[k].0 == h);
                            }
                        }
                    }
                },
                _ => {
                    proof {
                        assert forall|h: Ref| #[trigger]
                            self.live_ref(h) && h.slot() < i + 1 implies exists|k: int|
                            0 <= k < out@.len() && (#[trigger] out@[k]).0 == h by {
                            assert(h.slot() != i as int);
                            let k = choose|k: int|
                                0 <= k < out0.len() && (#[trigger] out0[k]).0 == h;
                            assert(out@[k].0 == h);
                        }
                    }
                },
            }
            i = i + 1;
        }
        out
    }

    /// The handles of all live items, in ascending slot order.
    pub fn refs(&self) -> (r: Vec<Ref>)
        ensures
            forall|k: int| 0 <= k < r@.len() ==> self.items().contains_key(#[trigger] r@[k]),
            forall|k1: int, k2: int| 0 <= k1 < k2 < r@.len() ==> r@[k1].slot() < r@[k2].slot(),
            forall|h: Ref| #[trigger]
                self.items().contains_key(h) ==> exists|k: int|
                    0 <= k < r@.len() && r@[k] == h,
    {
        let pairs = self.iter();
        let mut out: Vec<Ref> = Vec::new();
        let mut j: usize = 0;
        while j < pairs.len()
            invariant
                j <= pairs@.len(),
                out@.len() == j,
                forall|k: int| 0 <= k < j ==> out@[k] == (#[trigger] pairs@[k]).0,
                forall|k: int|
                    0 <= k < pairs@.len() ==> self.items().contains_key((#[trigger] pairs@[k]).0),
                forall|k1: int, k2: int|
                    0 <= k1 < k2 < pairs@.len() ==> pairs@[k1].0.slot() < pairs@[k2].0.slot(),
                forall|h: Ref| #[trigger]
                    self.items().contains_key(h) ==> exists|k: int|
                        0 <= k < pairs@.len() && (#[trigger] pairs@[k]).0 == h,
            decreases pairs@.len() - j,
        {
            let (rf, _) = pairs[j];
            out.push(rf);
            j = j + 1;
        }
        proof {
            assert forall|h: Ref| #[trigger] self.items().contains_key(h) implies exists|k: int|
                0 <= k < out@.len() && out@[k] == h by {
                let k = choose|k: int| 0 <= k < pairs@.len() && (#[trigger] pairs@[k]).0 == h;
                assert(out@[k] == h);
            }
            assert forall|k: int| 0 <= k < out@.len() implies self.items().contains_key(
                #[trigger] out@[k],
            ) by {
                assert(out@[k] == pairs@[k].0);
            }
            assert forall|k1: int, k2: int| 0 <= k1 < k2 < out@.len() implies out@[k1].slot()
                < out@[k2].slot() by {
                assert(out@[k1] == pairs@[k1].0);
                assert(out@[k2] == pairs@[k2].0);
            }
        }
        out
    }

    /// Whether `hs` enumerates exactly the live handles, in ascending slot
    /// order, and `vs` carries their items.
    pub open spec fn is_value_listing(self, hs: Seq<Ref>, vs: Seq<&T>) -> bool {
        &&& hs.len() == vs.len()
        &&& forall|k: int|
            0 <= k < hs.len() ==> self.items().contains_key(#[trigger] hs[k]) && *vs[k]
                == self.items()[hs[k]]
        &&& forall|k1: int, k2: int| 0 <= k1 < k2 < hs.len() ==> hs[k1].slot() < hs[k2].slot()
        &&& forall|h: Ref| #[trigger]
            self.items().contains_key(h) ==> exists|k: int| 0 <= k < hs.len() && hs[k] == h
    }

    /// The live items themselves, in ascending slot order: the items of
    /// some complete, duplicate-free listing of the live handles.
    pub fn values(&self) -> (r: Vec<&T>)
        ensures
            exists|hs: Seq<Ref>| #[trigger] self.is_value_listing(hs, r@),
    {
        let pairs = self.iter();
        let mut out: Vec<&T> = Vec::new();
        let mut j: usize = 0;
        while j < pairs.len()
            invariant
                j <= pairs@.len(),
                out@.len() == j,
                forall|k: int| 0 <= k < j ==> out@[k] == (#[trigger] pairs@[k]).1,
                forall|k: int|
                    0 <= k < pairs@.len() ==> self.items().contains_key((#[trigger] pairs@[k]).0)
                        && *pairs@[k].1 == self.items()[pairs@[k].0],
                forall|k1: int, k2: int|
                    0 <= k1 < k2 < pairs@.len() ==> pairs@[k1].0.slot() < pairs@[k2].0.slot(),
                forall|h: Ref| #[trigger]
                    self.items().contains_key(h) ==> exists|k: int|
                        0 <= k < pairs@.len() && (#[trigger] pairs@[k]).0 == h,
            decreases pairs@.len() - j,
        {
            let (_, it) = pairs[j];
            out.push(it);
            j = j + 1;
        }
        proof {
            let hs = Seq::new(pairs@.len(), |k: int| pairs@[k].0);
            let vs = out@;
            assert forall|k: int| 0 <= k < hs.len() implies self.items().contains_key(
                #[trigger] hs[k],
            ) && *vs[k] == self.items()[hs[k]] by {
                assert(out@[k] == pairs@[k].1);
            }
            assert forall|h: Ref| #[trigger] self.items().contains_key(h) implies exists|k: int|
                0 <= k < hs.len() && hs[k] == h by {
                let k = choose|k: int| 0 <= k < pairs@.len() && (#[trigger] pairs@[k]).0 == h;
                assert(hs[k] == h);
            }
            assert(self.is_value_listing(hs, vs));
        }
        out
    }
}

impl<T> Arena<T> {
    /// The `(handle, item)` pair for one slot, if that slot is live: the
    /// per-slot step shared by the sequential and the data-parallel
    /// enumeration.
    fn live_pair<'a>(uid: u64, index: usize, cell: &'a Cell<T>) -> (r: Option<(Ref, &'a T)>)
        ensures
            r is Some ==> cell.state.is_live() && r.unwrap().0 == (Ref {
                index,
                set_uid: uid,
                serial: cell.serial,
            }) && *r.unwrap().1 == cell.state.live_item(),
            r is None ==> !cell.state.is_live(),
    {
        match &cell.state {
            CellState::Regular { item: Some(it) } => Some(
                (Ref { index, set_uid: uid, serial: cell.serial }, it),
            ),
            _ => None,
        }
    }

    /// Enumerates the live items as `(handle, item)` pairs using
    /// data-parallel, read-only iteration over the slots.  Every live slot
    /// contributes exactly one pair, but no ordering across worker threads
    /// is guaranteed.
    pub fn par_iter(&self) -> (r: Vec<(Ref, &T)>) where T: Sync
        ensures
            forall|k: int|
                0 <= k < r@.len() ==> self.items().contains_key((#[trigger] r@[k]).0) && *r@[k].1
                    == self.items()[r@[k].0],
            forall|k1: int, k2: int| 0 <= k1 < k2 < r@.len() ==> r@[k1].0 != r@[k2].0,
            forall|h: Ref| #[trigger]
                self.items().contains_key(h) ==> exists|k: int|
                    0 <= k < r@.len() && (#[trigger] r@[k]).0 == h,
    {
        let pairs = par_live_pairs(self.uid, &self.cells);
        proof {
            assert forall|k: int| 0 <= k < pairs@.len() implies self.items().contains_key(
                (#[trigger] pairs@[k]).0,
            ) && *pairs@[k].1 == self.items()[pairs@[k].0] by {
                assert(self.live_ref(pairs@[k].0));
            }
            assert forall|h: Ref| #[trigger] self.items().contains_key(h) implies exists|k: int|
                0 <= k < pairs@.len() && (#[trigger] pairs@[k]).0 == h by {
                assert(self.cells@[h.slot()].state.is_live());
                let k = choose|k: int|
                    0 <= k < pairs@.len() && (#[trigger] pairs@[k]).0.slot() == h.slot();
                assert(pairs@[k].0 == h);
            }
        }
        pairs
    }
}

/// Relies on rayon's `par_iter` over a `Vec`, with `enumerate`, `flat_map`
/// and `collect`: each slot is visited exactly once, the supplied closure —
/// which only calls the verified per-slot step — maps it to at most one
/// pair, and `collect` gathers every produced pair into the result; the
/// order in which worker threads produce them is not relied upon.
#[verifier::external_body]
fn par_live_pairs<'a, T: Sync>(uid: u64, cells: &'a Vec<Cell<T>>) -> (r: Vec<(Ref, &'a T)>)
    ensures
        forall|k: int|
            0 <= k < r@.len() ==> ({
                let rf = (#[trigger] r@[k]).0;
                &&& rf.uid() == uid
                &&& 0 <= rf.slot() < cells@.len()
                &&& cells@[rf.slot()].serial == rf.serial()
                &&& cells@[rf.slot()].state.is_live()
                &&& *r@[k].1 == cells@[rf.slot()].state.live_item()
            }),
        forall|k1: int, k2: int| 0 <= k1 < k2 < r@.len() ==> r@[k1].0 != r@[k2].0,
        forall|i: int|
            0 <= i < cells@.len() && (#[trigger] cells@[i]).state.is_live() ==> exists|k: int|
                0 <= k < r@.len() && (#[trigger] r@[k]).0.slot() == i,
{
    cells
        .par_iter()
        .enumerate()
        .flat_map(|(index, cell)| Arena::live_pair(uid, index, cell))
        .collect()
}

/// The free list of a consistent arena cannot cover every slot when at least
/// one slot is occupied: its entries are distinct, in range, and all vacant.
proof fn lemma_free_shorter_than_cells<T>(a: Arena<T>, i: int)
    requires
        a.free_ok(),
        0 <= i < a.cells_view().len(),
        !a.cells_view()[i].state.is_vacant(),
    ensures
        a.free_view().len() < a.cells_view().len(),
{
    let fr = a.free_view().map_values(|u: usize| u as int);
    assert forall|k1: int, k2: int| k1 != k2 && 0 <= k1 < fr.len() && 0 <= k2 < fr.len()
        implies fr[k1] != fr[k2] by {
        if k1 < k2 {
            assert(a.free_view()[k1] != a.free_view()[k2]);
        } else {
            assert(a.free_view()[k2] != a.free_view()[k1]);
        }
    }
    assert(fr.no_duplicates());
    fr.unique_seq_to_set();
    let n = a.cells_view().len() as int;
    let rng = vstd::set_lib::set_int_range(0, n).remove(i);
    assert forall|x: int| fr.to_set().contains(x) implies rng.contains(x) by {
        let k = choose|k: int| 0 <= k < fr.len() && fr[k] == x;
        assert(a.cells_view()[a.free_view()[k] as int].state.is_vacant());
    }
    vstd::set_lib::lemma_int_range(0, n);
    assert(rng.len() == n - 1);
    vstd::set_lib::lemma_len_subset(fr.to_set(), rng);
}

/// The full effect of `insert`: relates the state before, after reservation,
/// and after the item is written into the reserved slot.
proof fn lemma_insert_ok<T>(o: Arena<T>, mid: Arena<T>, f: Arena<T>, r: Ref, item: T)
    requires
        o.wf(),
        o.can_insert(),
        mid.uid == o.uid,
        mid.serial == o.serial + 1,
        mid.len == o.len + 1,
        r.uid() == o.uid,
        r.serial() == o.serial + 1,
        0 <= r.slot() < mid.cells_view().len(),
        mid.cells_view()[r.slot()] == vacant_cell::<T>((o.serial + 1) as u64),
        if o.free_view().len() > 0 {
            &&& r.slot() == o.free_view().last() as int
            &&& mid.cells_view() == o.cells_view().update(
                r.slot(),
                vacant_cell::<T>((o.serial + 1) as u64),
            )
            &&& mid.free_view() == o.free_view().drop_last()
        } else {
            &&& r.slot() == o.cells_view().len()
            &&& mid.cells_view() == o.cells_view().push(vacant_cell::<T>((o.serial + 1) as u64))
            &&& mid.free_view() == o.free_view()
        },
        f.uid == mid.uid,
        f.serial == mid.serial,
        f.len == mid.len,
        f.free_view() == mid.free_view(),
        f.cells_view() == mid.cells_view().update(
            r.slot(),
            Cell { serial: (o.serial + 1) as u64, state: CellState::Regular { item: Some(item) } },
        ),
    ensures
        f.wf(),
        !o.items().contains_key(r),
        f.live_ref(r),
        f.items() == o.items().insert(r, item),
{
    let reuse = o.free_view().len() > 0;
    let s1 = (o.serial + 1) as u64;
    let i = r.slot();
    assert forall|j: int| 0 <= j < f.cells_view().len() && j != i
        implies f.cells_view()[j] == o.cells_view()[j] by {}
    // Well-formedness.
    assert forall|k: int| 0 <= k < f.free_view().len() implies 0 <= #[trigger] f.free_view()[k]
        < f.cells_view().len() && f.cells_view()[f.free_view()[k] as int].state.is_vacant() by {
        if reuse {
            assert(f.free_view()[k] == o.free_view()[k]);
            assert(o.free_view()[k] != o.free_view()[o.free_view().len() - 1]);
        }
    }
    assert forall|j: int|
        0 <= j < f.cells_view().len() && (#[trigger] f.cells_view()[j]).state.is_vacant()
        implies f.free_view().contains(j as usize) by {
        assert(j != i);
        assert(o.free_view().contains(j as usize));
        let k = choose|k: int| 0 <= k < o.free_view().len() && o.free_view()[k] == j as usize;
        if reuse {
            assert(o.free_view()[k] != o.free_view()[o.free_view().len() - 1]);
            assert(k < o.free_view().len() - 1);
            assert(f.free_view()[k] == j as usize);
        }
    }
    assert(f.wf());
    // Freshness of the handle.
    if reuse {
        assert(o.cells_view()[i].serial <= o.serial);
    }
    assert(!o.items().contains_key(r));
    // The contents map gains exactly `r`.
    assert forall|r2: Ref| true implies #[trigger] f.live_ref(r2) == (r2 == r || o.live_ref(
        r2,
    )) by {
        if r2.slot() == i {
            if f.live_ref(r2) {
                assert(r2.serial() == s1 && r2.uid() == o.uid);
                assert(r2 == r);
            }
            if o.live_ref(r2) {
                assert(o.cells_view()[i].serial <= o.serial);
                assert(!reuse ==> i >= o.cells_view().len());
                assert(reuse ==> o.cells_view()[i].state.is_vacant());
            }
        }
    }
    assert(f.items() =~= o.items().insert(r, item));
}

/// The full effect of a successful `remove`: the slot is emptied, pushed on
/// the free list, and exactly the removed handle leaves the contents map.
proof fn lemma_remove_ok<T>(o: Arena<T>, f: Arena<T>, set_ref: Ref)
    requires
        o.wf(),
        o.live_ref(set_ref),
        f.uid == o.uid,
        f.serial == o.serial,
        o.len >= 1,
        f.len == o.len - 1,
        f.cells_view() == o.cells_view().update(
            set_ref.slot(),
            Cell {
                serial: set_ref.serial(),
                state: CellState::<T>::Regular { item: None },
            },
        ),
        f.free_view() == o.free_view().push(set_ref.slot() as usize),
    ensures
        f.wf(),
        f.items() == o.items().remove(set_ref),
    {
    let i = set_ref.slot();
    assert forall|j: int| 0 <= j < f.cells_view().len() && j != i
        implies f.cells_view()[j] == o.cells_view()[j] by {}
    assert forall|k: int| 0 <= k < f.free_view().len() implies 0 <= #[trigger] f.free_view()[k]
        < f.cells_view().len() && f.cells_view()[f.free_view()[k] as int].state.is_vacant() by {
        if k < o.free_view().len() {
            assert(f.free_view()[k] == o.free_view()[k]);
            assert(o.cells_view()[o.free_view()[k] as int].state.is_vacant());
            assert(o.free_view()[k] as int != i);
        }
    }
    assert forall|k1: int, k2: int| 0 <= k1 < k2 < f.free_view().len()
        implies f.free_view()[k1] != f.free_view()[k2] by {
        if k2 == f.free_view().len() - 1 {
            assert(o.cells_view()[o.free_view()[k1] as int].state.is_vacant());
        }
    }
    assert forall|j: int|
        0 <= j < f.cells_view().len() && (#[trigger] f.cells_view()[j]).state.is_vacant()
        implies f.free_view().contains(j as usize) by {
        if j == i {
            assert(f.free_view()[f.free_view().len() - 1] == j as usize);
        } else {
            assert(o.free_view().contains(j as usize));
            let k = choose|k: int| 0 <= k < o.free_view().len() && o.free_view()[k] == j as usize;
            assert(f.free_view()[k] == j as usize);
        }
    }
    assert(f.wf());
    assert forall|r2: Ref| true implies #[trigger] f.live_ref(r2) == (o.live_ref(r2) && r2
        != set_ref) by {
        if r2.slot() == i {
            if o.live_ref(r2) {
                assert(r2 == set_ref);
            }
        }
    }
    assert(f.items() =~= o.items().remove(set_ref));
}

// ---------------------------------------------------------------------------
// Merging two arenas.
//
// Phase one (`Arena::merge`) reserves a still-empty target slot for every
// live source item and records the reserved index in the source slot
// (`Reloc`).  Phase two is driven through the merge protocol: `make_state`
// scans for the next `Reloc` slot, marks it `Moved`, and yields its item;
// `proceed` writes the caller's transformed item into the reserved slot.
// ---------------------------------------------------------------------------

/// Whether a source slot takes part in the relocation (`Reloc` or `Moved`).
pub(crate) open spec fn cell_marked<T>(c: Cell<T>) -> bool {
    match c.state {
        CellState::Reloc { .. } => true,
        CellState::Moved { .. } => true,
        _ => false,
    }
}

pub(crate) open spec fn cell_is_reloc<T>(c: Cell<T>) -> bool {
    match c.state {
        CellState::Reloc { .. } => true,
        _ => false,
    }
}

pub(crate) open spec fn cell_is_moved<T>(c: Cell<T>) -> bool {
    match c.state {
        CellState::Moved { .. } => true,
        _ => false,
    }
}

/// The target slot a marked source slot relocates to.
pub(crate) open spec fn cell_reloc<T>(c: Cell<T>) -> int {
    match c.state {
        CellState::Reloc { reloc_index, .. } => reloc_index as int,
        CellState::Moved { reloc_index } => reloc_index as int,
        _ => arbitrary(),
    }
}

impl<T> Arena<T> {
    /// The handle a marked slot had when the merge began (slot serials are
    /// not changed by the relocation).
    pub(crate) closed spec fn marked_ref_ok(self, r: Ref) -> bool {
        &&& r.uid() == self.uid
        &&& 0 <= r.slot() < self.cells@.len()
        &&& self.cells@[r.slot()].serial == r.serial()
        &&& cell_marked(self.cells@[r.slot()])
    }
}

/// Where each source-space handle that names a relocated item will live in
/// target space: the reserved slot, under the serial it was reserved with.
spec fn reloc_map<SI, TI>(source: Arena<SI>, target: Arena<TI>) -> Map<Ref, Ref> {
    Map::new(
        |r: Ref| source.marked_ref_ok(r),
        |r: Ref|
            Ref {
                index: cell_reloc(source.cells_view()[r.slot()]) as usize,
                set_uid: target.spec_uid(),
                serial: target.cells_view()[cell_reloc(source.cells_view()[r.slot()])].serial,
            },
    )
}

/// The source entries still awaiting relocation, in ascending slot order:
/// the handles and items of the `Reloc` slots at `from` and beyond.
spec fn reloc_entries<SI>(cells: Seq<Cell<SI>>, uid: u64, from: int) -> Seq<(Ref, SI)>
    decreases cells.len() - from,
{
    if from < 0 || from >= cells.len() {
        Seq::empty()
    } else {
        let rest = reloc_entries(cells, uid, from + 1);
        match cells[from].state {
            CellState::Reloc { item, .. } => seq![
                (Ref { index: from as usize, set_uid: uid, serial: cells[from].serial }, item),
            ] + rest,
            _ => rest,
        }
    }
}

/// If no slot at `from` or beyond is `Reloc`, nothing remains.
proof fn lemma_reloc_entries_none<SI>(cells: Seq<Cell<SI>>, uid: u64, from: int)
    requires
        forall|i: int| from <= i < cells.len() ==> !cell_is_reloc(#[trigger] cells[i]),
    ensures
        reloc_entries(cells, uid, from) == Seq::<(Ref, SI)>::empty(),
    decreases cells.len() - from,
{
    if 0 <= from < cells.len() {
        lemma_reloc_entries_none(cells, uid, from + 1);
    }
}

/// Two slot sequences that agree from `from` on have the same remaining
/// entries.
proof fn lemma_reloc_entries_agree<SI>(
    cells1: Seq<Cell<SI>>,
    cells2: Seq<Cell<SI>>,
    uid: u64,
    from: int,
)
    requires
        cells1.len() == cells2.len(),
        forall|i: int| from <= i < cells1.len() ==> cells1[i] == cells2[i],
    ensures
        reloc_entries(cells1, uid, from) == reloc_entries(cells2, uid, from),
    decreases cells1.len() - from,
{
    if 0 <= from < cells1.len() {
        lemma_reloc_entries_agree(cells1, cells2, uid, from + 1);
    }
}

/// Marking a slot `Reloc` beyond every currently marked one appends its
/// entry.
proof fn lemma_reloc_entries_append<SI>(
    cells: Seq<Cell<SI>>,
    uid: u64,
    from: int,
    j: int,
    item: SI,
    rt: usize,
)
    requires
        0 <= from <= j < cells.len(),
        forall|i: int| j <= i < cells.len() ==> !cell_is_reloc(#[trigger] cells[i]),
    ensures
        reloc_entries(
            cells.update(
                j,
                Cell { serial: cells[j].serial, state: CellState::Reloc { item, reloc_index: rt } },
            ),
            uid,
            from,
        ) == reloc_entries(cells, uid, from).push(
            (Ref { index: j as usize, set_uid: uid, serial: cells[j].serial }, item),
        ),
    decreases j - from,
{
    let cells2 = cells.update(
        j,
        Cell { serial: cells[j].serial, state: CellState::Reloc { item, reloc_index: rt } },
    );
    let entry = (Ref { index: j as usize, set_uid: uid, serial: cells[j].serial }, item);
    if from == j {
        lemma_reloc_entries_none(cells, uid, j);
        lemma_reloc_entries_none(cells, uid, j + 1);
        lemma_reloc_entries_agree(cells, cells2, uid, j + 1);
        lemma_reloc_entries_none(cells2, uid, j + 1);
        assert(reloc_entries(cells2, uid, j) =~= seq![entry]);
        assert(reloc_entries(cells, uid, j).push(entry) =~= seq![entry]);
    } else {
        lemma_reloc_entries_append(cells, uid, from + 1, j, item, rt);
        assert(cells2[from] == cells[from]);
        match cells[from].state {
            CellState::Reloc { item: it0, .. } => {
                let head = seq![
                    (
                        Ref { index: from as usize, set_uid: uid, serial: cells[from].serial },
                        it0,
                    ),
                ];
                assert(reloc_entries(cells2, uid, from) == head + reloc_entries(
                    cells2,
                    uid,
                    from + 1,
                ));
                assert((head + reloc_entries(cells, uid, from + 1)).push(entry) =~= head + (
                reloc_entries(cells, uid, from + 1).push(entry)));
            },
            _ => {},
        }
    }
}

/// The invariant of an in-progress merge between a source and a target.
/// Slots before `next` have been yielded (`Moved`) or were vacant; slots at
/// `next` and beyond still await their turn (`Reloc`) or are vacant.  Every
/// marked slot owns a distinct reserved target slot; a reserved slot is
/// still vacant until its item is written (`pending` names the one reserved
/// slot whose item has been yielded but not yet written).
spec fn merging_inv<SI, TI>(
    source: Arena<SI>,
    target: Arena<TI>,
    next: int,
    pending: Option<int>,
) -> bool {
    let scells = source.cells_view();
    let tcells = target.cells_view();
    let tfree = target.free_view();
    &&& 0 <= next <= scells.len()
    &&& forall|i: int|
        0 <= i < next ==> cell_is_moved(#[trigger] scells[i]) || scells[i].state.is_vacant()
    &&& forall|i: int|
        next <= i < scells.len() ==> cell_is_reloc(#[trigger] scells[i])
            || scells[i].state.is_vacant()
    &&& forall|i: int| 0 <= i < scells.len() ==> (#[trigger] scells[i]).serial
        <= source.spec_serial()
    &&& forall|i: int|
        0 <= i < scells.len() && cell_marked(#[trigger] scells[i]) ==> 0 <= cell_reloc(scells[i])
            < tcells.len()
    &&& forall|i: int, j: int|
        0 <= i < scells.len() && 0 <= j < scells.len() && i != j && cell_marked(
            #[trigger] scells[i],
        ) && cell_marked(#[trigger] scells[j]) ==> cell_reloc(scells[i]) != cell_reloc(scells[j])
    &&& forall|t: int| 0 <= t < tcells.len() ==> (#[trigger] tcells[t]).state.is_regular()
    &&& forall|t: int| 0 <= t < tcells.len() ==> (#[trigger] tcells[t]).serial
        <= target.spec_serial()
    &&& forall|i: int|
        0 <= i < scells.len() && cell_is_reloc(#[trigger] scells[i])
            ==> tcells[cell_reloc(scells[i])].state.is_vacant()
    &&& forall|i: int|
        0 <= i < scells.len() && cell_is_moved(#[trigger] scells[i]) && pending != Some(
            cell_reloc(scells[i]),
        ) ==> tcells[cell_reloc(scells[i])].state.is_live()
    &&& match pending {
        Some(p) => {
            &&& next >= 1
            &&& cell_is_moved(scells[next - 1])
            &&& cell_reloc(scells[next - 1]) == p
            &&& 0 <= p < tcells.len()
            &&& tcells[p].state.is_vacant()
        },
        None => true,
    }
    &&& forall|k: int|
        0 <= k < tfree.len() ==> 0 <= #[trigger] tfree[k] < tcells.len()
            && tcells[tfree[k] as int].state.is_vacant()
    &&& forall|k1: int, k2: int| 0 <= k1 < k2 < tfree.len() ==> tfree[k1] != tfree[k2]
    &&& forall|k: int, i: int|
        0 <= k < tfree.len() && 0 <= i < scells.len() && cell_marked(#[trigger] scells[i])
            ==> #[trigger] tfree[k] as int != cell_reloc(scells[i])
    &&& forall|t: int|
        0 <= t < tcells.len() && (#[trigger] tcells[t]).state.is_vacant() ==> tfree.contains(
            t as usize,
        ) || exists|i: int|
            0 <= i < scells.len() && cell_marked(#[trigger] scells[i]) && cell_reloc(scells[i])
                == t
    &&& target.spec_len() == tcells.len() - tfree.len()
}

/// Whether every marked source slot names a target slot that exists.
spec fn relocs_in_range<SI, TI>(source: Arena<SI>, target: Arena<TI>) -> bool {
    forall|i: int|
        0 <= i < source.cells_view().len() && cell_marked(#[trigger] source.cells_view()[i])
            ==> 0 <= cell_reloc(source.cells_view()[i]) < target.cells_view().len()
}

/// Maps a source-space handle to the target-space handle reserved for its
/// item: defined iff the handle named an item that was live when the merge
/// began; a stale, foreign or never-live handle yields `None`.
fn transform_ref<T, U>(target_set: &Arena<T>, source_set: &Arena<U>, source_ref: Ref) -> (r:
    Option<Ref>)
    requires
        relocs_in_range(*source_set, *target_set),
    ensures
        r == if reloc_map(*source_set, *target_set).contains_key(source_ref) {
            Some(reloc_map(*source_set, *target_set)[source_ref])
        } else {
            None::<Ref>
        },
{
    if source_ref.set_uid != source_set.uid {
        return None;
    }
    if source_ref.index >= source_set.cells.len() {
        return None;
    }
    let cell = &source_set.cells[source_ref.index];
    if cell.serial != source_ref.serial {
        return None;
    }
    let reloc_index: usize = match &cell.state {
        CellState::Reloc { reloc_index, .. } => *reloc_index,
        CellState::Moved { reloc_index } => *reloc_index,
        _ => {
            return None;
        },
    };
    Some(
        Ref {
            index: reloc_index,
            set_uid: target_set.uid,
            serial: target_set.cells[reloc_index].serial,
        },
    )
}

/// A merge between two arenas whose reservation phase is complete: every
/// live source item has a still-empty target slot reserved for it.
pub struct SetsInitMerger<SI, TI> {
    source: Arena<SI>,
    target: Arena<TI>,
}

/// An arena merge being driven item by item: slots below `next_index` have
/// been yielded, `reloc_index` is the target slot reserved for the item
/// yielded last.
pub struct SetsInProgressMerger<SI, TI> {
    source: Arena<SI>,
    target: Arena<TI>,
    next_index: usize,
    reloc_index: usize,
    cur: Ghost<SI>,
}

impl<T> Arena<T> {
    /// The number of slots this arena holds (occupied or vacant).
    pub closed spec fn spec_slots(self) -> int {
        self.cells@.len() as int
    }

    /// Whether `n` more slots can be reserved without exhausting the serial
    /// counter or the address space.
    pub closed spec fn can_absorb(self, n: int) -> bool {
        &&& self.serial + n <= u64::MAX
        &&& self.cells@.len() + n <= usize::MAX
    }

    /// Begins relocating every live item of `source_set` into this arena:
    /// reserves a fresh, still-empty slot here for each of them and records
    /// the reservation in the source slot.  The drive that follows (see the
    /// merge protocol) moves the items; the remap sends each live source
    /// handle to a fresh handle of this arena, injectively.
    #[verifier::loop_isolation(false)]
    pub fn merge<U>(self, source_set: Arena<U>) -> (m: SetsInitMerger<U, T>)
        requires
            self.wf(),
            source_set.wf(),
            self.can_absorb(source_set.spec_slots()),
        ensures
            m.inv(),
            m.target_now() == self.items(),
            entries_distinct(m.remaining()),
            entries_map(m.remaining()) == source_set.items(),
            m.rmap().dom() == source_set.items().dom(),
            forall|r1: Ref, r2: Ref|
                m.rmap().contains_key(r1) && m.rmap().contains_key(r2) && r1 != r2
                    ==> m.rmap()[r1] != m.rmap()[r2],
            forall|r: Ref| #[trigger]
                m.rmap().contains_key(r) ==> !self.items().contains_key(m.rmap()[r])
                    && m.rmap()[r].uid() == self.spec_uid(),
    {
        let mut target = self;
        let mut source = source_set;
        let ghost t0 = target;
        let ghost s0 = source;
        let ghost uid = source.spec_uid();
        let ghost mut e_g: Seq<(Ref, U)> = Seq::empty();
        let n = source.cells.len();
        let mut j: usize = 0;
        proof {
            assert(reloc_entries(source.cells@, uid, 0) =~= Seq::<(Ref, U)>::empty()) by {
                lemma_reloc_entries_none(source.cells@, uid, 0);
            }
        }
        while j < n
            invariant
                j <= n,
                n == s0.cells_view().len(),
                source.cells@.len() == n,
                source.spec_uid() == s0.spec_uid(),
                source.spec_serial() == s0.spec_serial(),
                forall|i: int| j <= i < n ==> #[trigger] source.cells@[i] == s0.cells_view()[i],
                forall|i: int|
                    0 <= i < j ==> (#[trigger] source.cells@[i]).serial
                        == s0.cells_view()[i].serial,
                forall|i: int|
                    0 <= i < j ==> (cell_is_reloc(#[trigger] source.cells@[i]) <==> s0.cell_live(
                        i,
                    )),
                forall|i: int|
                    0 <= i < j && !cell_is_reloc(#[trigger] source.cells@[i])
                        ==> source.cells@[i] == s0.cells_view()[i],
                forall|i: int|
                    0 <= i < j && cell_is_reloc(#[trigger] source.cells@[i])
                        ==> source.cells@[i].state.live_item()
                        == s0.cells_view()[i].state.live_item(),
                forall|i: int|
                    0 <= i < j && cell_is_reloc(#[trigger] source.cells@[i]) ==> ({
                        let rt = cell_reloc(source.cells@[i]);
                        &&& 0 <= rt < target.cells@.len()
                        &&& target.cells@[rt].state.is_vacant()
                        &&& target.cells@[rt].serial > t0.spec_serial()
                    }),
                forall|i1: int, i2: int|
                    0 <= i1 < j && 0 <= i2 < j && i1 != i2 && cell_is_reloc(
                        #[trigger] source.cells@[i1],
                    ) && cell_is_reloc(#[trigger] source.cells@[i2]) ==> cell_reloc(
                        source.cells@[i1],
                    ) != cell_reloc(source.cells@[i2]),
                target.spec_uid() == t0.spec_uid(),
                target.spec_serial() >= t0.spec_serial(),
                forall|t: int|
                    0 <= t < target.cells@.len() ==> (#[trigger] target.cells@[t]).state.is_regular()
                        && target.cells@[t].serial <= target.spec_serial(),
                forall|k: int|
                    0 <= k < target.free@.len() ==> 0 <= #[trigger] target.free@[k]
                        < target.cells@.len() && target.cells@[target.free@[k] as int].state.is_vacant(),
                forall|k1: int, k2: int|
                    0 <= k1 < k2 < target.free@.len() ==> target.free@[k1] != target.free@[k2],
                forall|k: int, i: int|
                    0 <= k < target.free@.len() && 0 <= i < j && cell_is_reloc(
                        #[trigger] source.cells@[i],
                    ) ==> #[trigger] target.free@[k] as int != cell_reloc(source.cells@[i]),
                forall|t: int|
                    0 <= t < target.cells@.len() && (#[trigger] target.cells@[t]).state.is_vacant()
                        ==> target.free@.contains(t as usize) || exists|i: int|
                        0 <= i < j && cell_is_reloc(#[trigger] source.cells@[i]) && cell_reloc(
                            source.cells@[i],
                        ) == t,
                target.spec_len() == target.cells@.len() - target.free@.len(),
                target.items() == t0.items(),
                target.spec_serial() + (n - j) <= u64::MAX,
                target.cells@.len() + (n - j) <= usize::MAX,
                e_g == reloc_entries(source.cells@, uid, 0),
                forall|k1: int, k2: int|
                    0 <= k1 < k2 < e_g.len() ==> e_g[k1].0.slot() < e_g[k2].0.slot(),
                forall|k: int|
                    0 <= k < e_g.len() ==> s0.live_ref((#[trigger] e_g[k]).0) && e_g[k].0.slot()
                        < j && e_g[k].1 == s0.cells_view()[e_g[k].0.slot()].state.live_item(),
                forall|i: int|
                    0 <= i < j && #[trigger] s0.cell_live(i) ==> exists|k: int|
                        0 <= k < e_g.len() && (#[trigger] e_g[k]).0 == s0.ref_at(i),
            decreases n - j,
        {
            let ghost tg1 = target;
            let ghost sc1 = source.cells@;
            let ghost eg1 = e_g;
            let live = match &source.cells[j].state {
                CellState::Regular { item: Some(_) } => true,
                _ => false,
            };
            if live {
                let r = target.insert_empty();
                let ridx = r.index;
                let serial_j = source.cells[j].serial;
                let cell = &mut source.cells[j];
                let mut taken = CellState::Regular { item: None };
                core::mem::swap(&mut cell.state, &mut taken);
                let item = match taken {
                    CellState::Regular { item: Some(item) } => item,
                    _ => vstd::pervasive::unreached(),
                };
                proof {
                    e_g = e_g.push((Ref { index: j, set_uid: uid, serial: serial_j }, item));
                }
                cell.state = CellState::Reloc { item, reloc_index: ridx };
                proof {
                    let reuse = tg1.free_view().len() > 0;
                    let jj = j as int;
                    let rx = ridx as int;
                    assert(source.cells@ =~= sc1.update(
                        jj,
                        Cell {
                            serial: serial_j,
                            state: CellState::Reloc { item, reloc_index: ridx },
                        },
                    ));
                    assert forall|i: int| jj <= i < n implies !cell_is_reloc(
                        #[trigger] sc1[i],
                    ) by {
                        assert(sc1[i] == s0.cells_view()[i]);
                    }
                    lemma_reloc_entries_append(sc1, uid, 0, jj, item, ridx);
                    // The fresh reservation does not collide with the old ones.
                    assert forall|i: int|
                        0 <= i < jj && cell_is_reloc(#[trigger] source.cells@[i]) implies
                        cell_reloc(source.cells@[i]) != rx by {
                        if reuse {
                            assert(tg1.free_view()[tg1.free_view().len() - 1] as int != cell_reloc(
                                sc1[i],
                            ));
                        }
                    }
                    // The old free list survives minus the slot just taken.
                    assert forall|tu: usize|
                        #[trigger] tg1.free_view().contains(tu) && tu as int != rx implies
                        target.free@.contains(tu) by {
                        let k = choose|k: int|
                            0 <= k < tg1.free_view().len() && tg1.free_view()[k] == tu;
                        if reuse {
                            assert(tg1.free_view()[tg1.free_view().len() - 1] == ridx);
                            assert(k < tg1.free_view().len() - 1);
                            assert(target.free@[k] == tu);
                        } else {
                            assert(target.free@[k] == tu);
                        }
                    }
                    // Vacant target slots are free or reserved.
                    assert forall|t: int|
                        0 <= t < target.cells@.len() && (#[trigger] target.cells@[t]).state.is_vacant()
                        implies target.free@.contains(t as usize) || exists|i: int|
                        0 <= i < jj + 1 && cell_is_reloc(#[trigger] source.cells@[i]) && cell_reloc(
                            source.cells@[i],
                        ) == t by {
                        if t == rx {
                            assert(cell_is_reloc(source.cells@[jj]) && cell_reloc(
                                source.cells@[jj],
                            ) == t);
                        } else {
                            assert(0 <= t < tg1.cells_view().len());
                            assert(tg1.cells_view()[t].state.is_vacant());
                            if tg1.free_view().contains(t as usize) {
                                assert(target.free@.contains(t as usize));
                            } else {
                                let i = choose|i: int|
                                    0 <= i < jj && cell_is_reloc(#[trigger] sc1[i]) && cell_reloc(
                                        sc1[i],
                                    ) == t;
                                assert(cell_is_reloc(source.cells@[i]) && cell_reloc(
                                    source.cells@[i],
                                ) == t);
                            }
                        }
                    }
                    // The target keeps its contents: the reserved slot is empty
                    // and carries a fresh serial.
                    assert forall|r2: Ref| true implies #[trigger] target.live_ref(r2)
                        == tg1.live_ref(r2) by {
                        if r2.slot() == r.slot() {
                            assert(!target.cells@[r2.slot()].state.is_live());
                            if 0 <= r2.slot() < tg1.cells@.len() {
                                assert(tg1.cells@[r2.slot()].state.is_vacant() ==> !tg1.live_ref(
                                    r2,
                                ));
                            }
                        }
                    }
                    assert(target.items() =~= tg1.items());
                    // Completeness of the entry list.
                    assert forall|i: int| 0 <= i < jj + 1 && #[trigger] s0.cell_live(i) implies
                        exists|k: int| 0 <= k < e_g.len() && (#[trigger] e_g[k]).0 == s0.ref_at(
                        i,
                    ) by {
                        if i == jj {
                            assert(e_g[e_g.len() - 1].0 == s0.ref_at(i));
                        } else {
                            let k = choose|k: int|
                                0 <= k < eg1.len() && (#[trigger] eg1[k]).0 == s0.ref_at(i);
                            assert(e_g[k].0 == s0.ref_at(i));
                        }
                    }
                }
            } else {
                proof {
                    assert(source.cells@ =~= sc1);
                    assert(!s0.cell_live(j as int));
                }
            }
            j = j + 1;
        }
        let m = SetsInitMerger { source, target };
        proof {
            lemma_merge_post(s0, t0, m.source, m.target, e_g);
        }
        m
    }
}

/// Collects what holds at the end of the reservation phase: the merger's
/// invariant, the shape of its remap, and the entry list's agreement with
/// the source contents.
proof fn lemma_merge_post<SI, TI>(
    s0: Arena<SI>,
    t0: Arena<TI>,
    source: Arena<SI>,
    target: Arena<TI>,
    e_g: Seq<(Ref, SI)>,
)
    requires
        s0.wf(),
        t0.wf(),
        source.cells_view().len() == s0.cells_view().len(),
        source.spec_uid() == s0.spec_uid(),
        source.spec_serial() == s0.spec_serial(),
        forall|i: int|
            0 <= i < source.cells_view().len() ==> (#[trigger] source.cells_view()[i]).serial
                == s0.cells_view()[i].serial,
        forall|i: int|
            0 <= i < source.cells_view().len() ==> (cell_is_reloc(
                #[trigger] source.cells_view()[i],
            ) <==> s0.cell_live(i)),
        forall|i: int|
            0 <= i < source.cells_view().len() && !cell_is_reloc(#[trigger] source.cells_view()[i])
                ==> source.cells_view()[i] == s0.cells_view()[i],
        forall|i: int|
            0 <= i < source.cells_view().len() && cell_is_reloc(#[trigger] source.cells_view()[i])
                ==> source.cells_view()[i].state.live_item()
                == s0.cells_view()[i].state.live_item(),
        forall|i: int|
            0 <= i < source.cells_view().len() && cell_is_reloc(#[trigger] source.cells_view()[i])
                ==> ({
                let rt = cell_reloc(source.cells_view()[i]);
                &&& 0 <= rt < target.cells_view().len()
                &&& target.cells_view()[rt].state.is_vacant()
                &&& target.cells_view()[rt].serial > t0.spec_serial()
            }),
        forall|i1: int, i2: int|
            0 <= i1 < source.cells_view().len() && 0 <= i2 < source.cells_view().len() && i1 != i2
                && cell_is_reloc(#[trigger] source.cells_view()[i1]) && cell_is_reloc(
                #[trigger] source.cells_view()[i2],
            ) ==> cell_reloc(source.cells_view()[i1]) != cell_reloc(source.cells_view()[i2]),
        target.spec_uid() == t0.spec_uid(),
        forall|t: int|
            0 <= t < target.cells_view().len() ==> (#[trigger] target.cells_view()[t]).state.is_regular()
                && target.cells_view()[t].serial <= target.spec_serial(),
        forall|k: int|
            0 <= k < target.free_view().len() ==> 0 <= #[trigger] target.free_view()[k]
                < target.cells_view().len()
                && target.cells_view()[target.free_view()[k] as int].state.is_vacant(),
        forall|k1: int, k2: int|
            0 <= k1 < k2 < target.free_view().len() ==> target.free_view()[k1]
                != target.free_view()[k2],
        forall|k: int, i: int|
            0 <= k < target.free_view().len() && 0 <= i < source.cells_view().len()
                && cell_is_reloc(#[trigger] source.cells_view()[i])
                ==> #[trigger] target.free_view()[k] as int != cell_reloc(source.cells_view()[i]),
        forall|t: int|
            0 <= t < target.cells_view().len() && (#[trigger] target.cells_view()[t]).state.is_vacant()
                ==> target.free_view().contains(t as usize) || exists|i: int|
                0 <= i < source.cells_view().len() && cell_is_reloc(
                    #[trigger] source.cells_view()[i],
                ) && cell_reloc(source.cells_view()[i]) == t,
        target.spec_len() == target.cells_view().len() - target.free_view().len(),
        target.items() == t0.items(),
        e_g == reloc_entries(source.cells_view(), s0.spec_uid(), 0),
        forall|k1: int, k2: int|
            0 <= k1 < k2 < e_g.len() ==> e_g[k1].0.slot() < e_g[k2].0.slot(),
        forall|k: int|
            0 <= k < e_g.len() ==> s0.live_ref((#[trigger] e_g[k]).0) && e_g[k].1
                == s0.cells_view()[e_g[k].0.slot()].state.live_item(),
        forall|i: int|
            0 <= i < source.cells_view().len() && #[trigger] s0.cell_live(i) ==> exists|k: int|
                0 <= k < e_g.len() && (#[trigger] e_g[k]).0 == s0.ref_at(i),
    ensures
        merging_inv(source, target, 0, None::<int>),
        entries_distinct(e_g),
        entries_map(e_g) == s0.items(),
        reloc_map(source, target).dom() == s0.items().dom(),
        forall|r1: Ref, r2: Ref|
            reloc_map(source, target).contains_key(r1) && reloc_map(source, target).contains_key(
                r2,
            ) && r1 != r2 ==> reloc_map(source, target)[r1] != reloc_map(source, target)[r2],
        forall|r: Ref| #[trigger]
            reloc_map(source, target).contains_key(r) ==> !t0.items().contains_key(
                reloc_map(source, target)[r],
            ) && reloc_map(source, target)[r].uid() == t0.spec_uid(),
{
    let rm = reloc_map(source, target);
    // No slot is `Moved`, so marked slots are exactly the `Reloc` ones.
    assert forall|i: int|
        0 <= i < source.cells_view().len() implies (cell_marked(#[trigger] source.cells_view()[i])
        <==> cell_is_reloc(source.cells_view()[i])) by {
        if !cell_is_reloc(source.cells_view()[i]) {
            assert(source.cells_view()[i] == s0.cells_view()[i]);
            assert(s0.cells_view()[i].state.is_regular());
        }
    }
    assert(merging_inv(source, target, 0, None::<int>));
    // Entry handles are pairwise distinct because their slots ascend.
    assert(entries_distinct(e_g));
    // The entry map is exactly the source contents.
    assert forall|r: Ref| true implies entries_map(e_g).contains_key(r) == s0.items().contains_key(
        r,
    ) by {
        lemma_entries_map_dom(e_g, r);
        if s0.live_ref(r) {
            assert(s0.cell_live(r.slot()));
            assert(exists|k: int| 0 <= k < e_g.len() && (#[trigger] e_g[k]).0 == s0.ref_at(
                r.slot(),
            ));
            let k = choose|k: int|
                0 <= k < e_g.len() && (#[trigger] e_g[k]).0 == s0.ref_at(r.slot());
            assert(e_g[k].0 == r);
        }
        if entries_map(e_g).contains_key(r) {
            let k = choose|k: int| 0 <= k < e_g.len() && (#[trigger] e_g[k]).0 == r;
            assert(s0.live_ref(r));
        }
    }
    assert forall|r: Ref| #[trigger] s0.items().contains_key(r) implies entries_map(e_g)[r]
        == s0.items()[r] by {
        lemma_entries_map_dom(e_g, r);
        let k = choose|k: int| 0 <= k < e_g.len() && (#[trigger] e_g[k]).0 == r;
        lemma_entries_map_index(e_g, k);
    }
    assert(entries_map(e_g) =~= s0.items());
    // The remap's domain is the source contents' domain.
    assert forall|r: Ref| true implies rm.contains_key(r) == s0.items().contains_key(r) by {
        if 0 <= r.slot() < source.cells_view().len() {
            assert(cell_marked(source.cells_view()[r.slot()]) <==> cell_is_reloc(
                source.cells_view()[r.slot()],
            ));
        }
    }
    assert(rm.dom() =~= s0.items().dom());
    // Injectivity: distinct slots get distinct reserved slots; equal slots
    // force equal serials, hence equal handles.
    assert forall|r1: Ref, r2: Ref|
        rm.contains_key(r1) && rm.contains_key(r2) && r1 != r2 implies rm[r1] != rm[r2] by {
        if r1.slot() == r2.slot() {
            assert(r1.serial() == source.cells_view()[r1.slot()].serial);
            assert(r2.serial() == source.cells_view()[r1.slot()].serial);
            assert(false);
        } else {
            assert(cell_reloc(source.cells_view()[r1.slot()]) != cell_reloc(
                source.cells_view()[r2.slot()],
            ));
        }
    }
    // Freshness: reserved slots carry serials above everything the target
    // had issued, so they can collide with none of its live handles.
    assert forall|r: Ref| #[trigger] rm.contains_key(r) implies !t0.items().contains_key(rm[r])
        && rm[r].uid() == t0.spec_uid() by {
        let tr = rm[r];
        assert(tr.serial() > t0.spec_serial());
        if t0.live_ref(tr) {
            assert(t0.cells_view()[tr.slot()].serial <= t0.spec_serial());
            assert(false);
        }
    }
}

/// The handle under which the slot `rt` of `target` is (or will be) known.
spec fn target_ref_at<TI>(target: Arena<TI>, rt: int) -> Ref {
    Ref {
        index: rt as usize,
        set_uid: target.spec_uid(),
        serial: target.cells_view()[rt].serial,
    }
}

/// Yielding the slot `i` (the first one still awaiting relocation) keeps the
/// merge invariant, the remap and the pending entries, minus the yielded
/// one.
proof fn lemma_make_state_found<SI, TI>(
    src0: Arena<SI>,
    snew: Arena<SI>,
    target: Arena<TI>,
    index: int,
    i: int,
)
    requires
        merging_inv(src0, target, index, None::<int>),
        src0.cells_view().len() <= usize::MAX,
        0 <= index <= i < src0.cells_view().len(),
        forall|q: int| index <= q < i ==> !cell_is_reloc(#[trigger] src0.cells_view()[q]),
        cell_is_reloc(src0.cells_view()[i]),
        snew.cells_view() == src0.cells_view().update(
            i,
            Cell {
                serial: src0.cells_view()[i].serial,
                state: CellState::<SI>::Moved {
                    reloc_index: cell_reloc(src0.cells_view()[i]) as usize,
                },
            },
        ),
        snew.spec_uid() == src0.spec_uid(),
        snew.spec_serial() == src0.spec_serial(),
    ensures
        merging_inv(snew, target, i + 1, Some(cell_reloc(src0.cells_view()[i]))),
        reloc_map(snew, target) == reloc_map(src0, target),
        ({
            let uid = src0.spec_uid();
            let rem = reloc_entries(src0.cells_view(), uid, index);
            let entry = (
                src0.ref_at(i),
                src0.cells_view()[i].state.live_item(),
            );
            &&& reloc_entries(src0.cells_view(), uid, i) == seq![entry] + reloc_entries(
                src0.cells_view(),
                uid,
                i + 1,
            )
            &&& reloc_entries(snew.cells_view(), uid, i + 1) == reloc_entries(
                src0.cells_view(),
                uid,
                i + 1,
            )
        }),
        reloc_map(src0, target).contains_key(src0.ref_at(i)),
        reloc_map(src0, target)[src0.ref_at(i)] == target_ref_at(
            target,
            cell_reloc(src0.cells_view()[i]),
        ),
        !target.items().contains_key(target_ref_at(target, cell_reloc(src0.cells_view()[i]))),
{
    let rt = cell_reloc(src0.cells_view()[i]);
    let uid = src0.spec_uid();
    // Marked slots, their serials and their reservations are untouched.
    assert forall|q: int| 0 <= q < snew.cells_view().len() implies (cell_marked(
        #[trigger] snew.cells_view()[q],
    ) == cell_marked(src0.cells_view()[q]) && (cell_marked(src0.cells_view()[q]) ==> cell_reloc(
        snew.cells_view()[q],
    ) == cell_reloc(src0.cells_view()[q])) && snew.cells_view()[q].serial
        == src0.cells_view()[q].serial) by {}
    // The merge invariant advances past `i`.
    assert forall|q: int| 0 <= q < i + 1 implies cell_is_moved(#[trigger] snew.cells_view()[q])
        || snew.cells_view()[q].state.is_vacant() by {
        if q < index {
            assert(cell_is_moved(src0.cells_view()[q]) || src0.cells_view()[q].state.is_vacant());
        } else if q < i {
            assert(cell_is_reloc(src0.cells_view()[q]) || src0.cells_view()[q].state.is_vacant());
        }
    }
    assert forall|q: int|
        0 <= q < snew.cells_view().len() && cell_is_moved(#[trigger] snew.cells_view()[q]) && Some(
            cell_reloc(snew.cells_view()[q]),
        ) != Some(rt) implies target.cells_view()[cell_reloc(snew.cells_view()[q])].state.is_live() by {
        assert(q != i);
        assert(cell_is_moved(src0.cells_view()[q]));
    }
    assert forall|t: int|
        0 <= t < target.cells_view().len() && (#[trigger] target.cells_view()[t]).state.is_vacant()
            && !target.free_view().contains(t as usize) implies exists|q: int|
        0 <= q < snew.cells_view().len() && cell_marked(#[trigger] snew.cells_view()[q])
            && cell_reloc(snew.cells_view()[q]) == t by {
        let q = choose|q: int|
            0 <= q < src0.cells_view().len() && cell_marked(#[trigger] src0.cells_view()[q])
                && cell_reloc(src0.cells_view()[q]) == t;
        assert(cell_marked(snew.cells_view()[q]) && cell_reloc(snew.cells_view()[q]) == t);
    }
    assert(merging_inv(snew, target, i + 1, Some(rt)));
    // The remap is unchanged.
    assert forall|r: Ref| true implies src0.marked_ref_ok(r) == snew.marked_ref_ok(r) by {}
    assert(reloc_map(snew, target) =~= reloc_map(src0, target));
    // The pending entries lose exactly the yielded one.
    let entry = (src0.ref_at(i), src0.cells_view()[i].state.live_item());
    assert(src0.ref_at(i) == Ref {
        index: i as usize,
        set_uid: uid,
        serial: src0.cells_view()[i].serial,
    });
    assert(reloc_entries(src0.cells_view(), uid, i) =~= seq![entry] + reloc_entries(
        src0.cells_view(),
        uid,
        i + 1,
    ));
    lemma_reloc_entries_agree(snew.cells_view(), src0.cells_view(), uid, i + 1);
    // The yielded handle is in the remap, sent to the reserved slot, which
    // holds no live item yet.
    assert(src0.marked_ref_ok(src0.ref_at(i)));
    assert(reloc_map(src0, target).contains_key(src0.ref_at(i)));
    assert(reloc_map(src0, target)[src0.ref_at(i)] == target_ref_at(target, rt));
    assert(target.cells_view()[rt].state.is_vacant());
    assert(!target.live_ref(target_ref_at(target, rt)));
}

/// When no slot awaits relocation any more and no yielded item is pending,
/// the target is an ordinary well-formed arena again.
proof fn lemma_make_state_finished<SI, TI>(src0: Arena<SI>, target: Arena<TI>, index: int)
    requires
        merging_inv(src0, target, index, None::<int>),
        forall|q: int| index <= q < src0.cells_view().len() ==> !cell_is_reloc(
            #[trigger] src0.cells_view()[q],
        ),
    ensures
        target.wf(),
{
    assert forall|t: int|
        0 <= t < target.cells_view().len() && (#[trigger] target.cells_view()[t]).state.is_vacant()
        implies target.free_view().contains(t as usize) by {
        if !target.free_view().contains(t as usize) {
            let i = choose|i: int|
                0 <= i < src0.cells_view().len() && cell_marked(#[trigger] src0.cells_view()[i])
                    && cell_reloc(src0.cells_view()[i]) == t;
            if cell_is_reloc(src0.cells_view()[i]) {
                assert(i < index);
                assert(cell_is_moved(src0.cells_view()[i])
                    || src0.cells_view()[i].state.is_vacant());
                assert(false);
            } else {
                assert(cell_is_moved(src0.cells_view()[i]));
                assert(target.cells_view()[t].state.is_live());
                assert(false);
            }
        }
    }
    assert(target.wf());
}

/// Writing the transformed item into its reserved slot ends the pending
/// state: the target gains exactly the pending handle, and the remap is
/// unchanged because slot serials are.
proof fn lemma_proceed_ok<SI, TI>(
    source: Arena<SI>,
    t1: Arena<TI>,
    t2: Arena<TI>,
    next: int,
    rt: int,
    ti: TI,
)
    requires
        merging_inv(source, t1, next, Some(rt)),
        t2.cells_view() == t1.cells_view().update(
            rt,
            Cell {
                serial: t1.cells_view()[rt].serial,
                state: CellState::Regular { item: Some(ti) },
            },
        ),
        t2.spec_uid() == t1.spec_uid(),
        t2.spec_serial() == t1.spec_serial(),
        t2.free_view() == t1.free_view(),
        t2.spec_len() == t1.spec_len(),
    ensures
        merging_inv(source, t2, next, None::<int>),
        reloc_map(source, t2) == reloc_map(source, t1),
        t2.items() == t1.items().insert(target_ref_at(t1, rt), ti),
        !t1.items().contains_key(target_ref_at(t1, rt)),
{
    let scells = source.cells_view();
    let pref = target_ref_at(t1, rt);
    assert(cell_is_moved(scells[next - 1]) && cell_reloc(scells[next - 1]) == rt);
    // Every reservation other than `rt` is untouched; `rt` is now filled.
    assert forall|i: int|
        0 <= i < scells.len() && cell_is_reloc(#[trigger] scells[i]) implies t2.cells_view()[cell_reloc(
        scells[i],
    )].state.is_vacant() by {
        assert(cell_reloc(scells[i]) != rt);
    }
    assert forall|i: int|
        0 <= i < scells.len() && cell_is_moved(#[trigger] scells[i]) implies t2.cells_view()[cell_reloc(
        scells[i],
    )].state.is_live() by {
        if cell_reloc(scells[i]) != rt {
            assert(Some(cell_reloc(scells[i])) != Some(rt));
            assert(t1.cells_view()[cell_reloc(scells[i])].state.is_live());
        }
    }
    assert forall|t: int|
        0 <= t < t2.cells_view().len() && (#[trigger] t2.cells_view()[t]).state.is_vacant()
        implies t2.free_view().contains(t as usize) || exists|i: int|
        0 <= i < scells.len() && cell_marked(#[trigger] scells[i]) && cell_reloc(scells[i])
            == t by {
        assert(t != rt);
        assert(t1.cells_view()[t].state.is_vacant());
    }
    assert(merging_inv(source, t2, next, None::<int>));
    // Slot serials did not change, so neither does the remap.
    assert(reloc_map(source, t2) =~= reloc_map(source, t1));
    // The target contents gain exactly the pending handle.
    assert(!t1.live_ref(pref));
    assert forall|r2: Ref| true implies #[trigger] t2.live_ref(r2) == (r2 == pref || t1.live_ref(
        r2,
    )) by {
        if r2.slot() == rt {
            if t2.live_ref(r2) {
                assert(r2.serial() == t1.cells_view()[rt].serial && r2.uid() == t1.spec_uid());
            }
        }
    }
    assert(t2.items() =~= t1.items().insert(pref, ti));
}

impl<SI, TI> SetsInProgressMerger<SI, TI> {
    /// Scans from `index` for the next slot awaiting relocation, marks it
    /// `Moved` (keeping the reserved target index for later handle
    /// resolution), and yields its raw item; when none remains, hands back
    /// the merged target together with the drained, reusable source.
    #[verifier::loop_isolation(false)]
    fn make_state(source: Arena<SI>, target: Arena<TI>, index: usize) -> (st: MergeState<
        Ref,
        SI,
        SetsInProgressMerger<SI, TI>,
        Arena<TI>,
        Arena<SI>,
    >)
        requires
            merging_inv(source, target, index as int, None::<int>),
        ensures
            ({
                let rm = reloc_map(source, target);
                let rem = reloc_entries(source.cells_view(), source.spec_uid(), index as int);
                match st {
                    MergeState::Continue { item_ref, item, next } => {
                        &&& rem.len() > 0
                        &&& item_ref == rem[0].0
                        &&& item == rem[0].1
                        &&& merging_inv(
                            next.source,
                            next.target,
                            next.next_index as int,
                            Some(next.reloc_index as int),
                        )
                        &&& reloc_map(next.source, next.target) == rm
                        &&& next.target.items() == target.items()
                        &&& next.source.spec_uid() == source.spec_uid()
                        &&& reloc_entries(
                            next.source.cells_view(),
                            next.source.spec_uid(),
                            next.next_index as int,
                        ) == rem.drop_first()
                        &&& next.cur@ == rem[0].1
                        &&& rm.contains_key(item_ref)
                        &&& target_ref_at(next.target, next.reloc_index as int) == rm[item_ref]
                        &&& !target.items().contains_key(rm[item_ref])
                    },
                    MergeState::Finish { merged, empty } => {
                        &&& rem.len() == 0
                        &&& merged == target
                        &&& target.wf()
                        &&& empty.wf()
                        &&& empty.items() == Map::<Ref, SI>::empty()
                    },
                }
            }),
    {
        let ghost src0 = source;
        let ghost uid = source.spec_uid();
        let mut source = source;
        let mut i: usize = index;
        while i < source.cells.len()
            invariant
                index <= i,
                i <= source.cells@.len(),
                source == src0,
                forall|q: int| index as int <= q < i ==> !cell_is_reloc(
                    #[trigger] src0.cells_view()[q],
                ),
                reloc_entries(src0.cells_view(), uid, index as int) == reloc_entries(
                    src0.cells_view(),
                    uid,
                    i as int,
                ),
            decreases source.cells@.len() - i,
        {
            let found = match &source.cells[i].state {
                CellState::Reloc { .. } => true,
                _ => false,
            };
            if found {
                let serial = source.cells[i].serial;
                let item_ref = Ref { index: i, set_uid: source.uid, serial };
                let cell = &mut source.cells[i];
                let reloc_target: usize = match &cell.state {
                    CellState::Reloc { reloc_index, .. } => *reloc_index,
                    _ => vstd::pervasive::unreached(),
                };
                let mut taken = CellState::Moved { reloc_index: reloc_target };
                core::mem::swap(&mut cell.state, &mut taken);
                let item = match taken {
                    CellState::Reloc { item, .. } => item,
                    _ => vstd::pervasive::unreached(),
                };
                proof {
                    assert(source.cells@ =~= src0.cells_view().update(
                        i as int,
                        Cell {
                            serial: src0.cells_view()[i as int].serial,
                            state: CellState::<SI>::Moved {
                                reloc_index: cell_reloc(src0.cells_view()[i as int]) as usize,
                            },
                        },
                    ));
                    lemma_make_state_found(src0, source, target, index as int, i as int);
                }
                let next = SetsInProgressMerger {
                    source,
                    target,
                    next_index: i + 1,
                    reloc_index: reloc_target,
                    cur: Ghost(item),
                };
                return MergeState::Continue { item_ref, item, next };
            }
            i = i + 1;
        }
        proof {
            lemma_reloc_entries_none(src0.cells_view(), uid, i as int);
            lemma_make_state_finished(src0, target, index as int);
        }
        source.cells.clear();
        source.free.clear();
        source.len = 0;
        proof {
            assert(source.items() =~= Map::<Ref, SI>::empty());
        }
        MergeState::Finish { merged: target, empty: source }
    }
}

impl<SI, TI> InitMerger<Ref, Ref, SI, TI, SetsInProgressMerger<SI, TI>, Arena<TI>, Arena<SI>>
    for SetsInitMerger<SI, TI> {
    closed spec fn inv(&self) -> bool {
        merging_inv(self.source, self.target, 0, None::<int>)
    }

    closed spec fn rmap(&self) -> Map<Ref, Ref> {
        reloc_map(self.source, self.target)
    }

    closed spec fn target_now(&self) -> Map<Ref, TI> {
        self.target.items()
    }

    closed spec fn remaining(&self) -> Seq<(Ref, SI)> {
        reloc_entries(self.source.cells_view(), self.source.spec_uid(), 0)
    }

    fn ref_transform(&self, source_ref: Ref) -> (r: Option<Ref>) {
        transform_ref(&self.target, &self.source, source_ref)
    }

    fn merge_start(self) -> (st: MergeState<
        Ref,
        SI,
        SetsInProgressMerger<SI, TI>,
        Arena<TI>,
        Arena<SI>,
    >) {
        let SetsInitMerger { source, target } = self;
        SetsInProgressMerger::make_state(source, target, 0)
    }
}

impl<SI, TI> InProgressMerger<Ref, Ref, SI, TI, Arena<TI>, Arena<SI>> for SetsInProgressMerger<
    SI,
    TI,
> {
    type Src = SI;

    type Stored = TI;

    closed spec fn inv(&self) -> bool {
        merging_inv(
            self.source,
            self.target,
            self.next_index as int,
            Some(self.reloc_index as int),
        )
    }

    closed spec fn rmap(&self) -> Map<Ref, Ref> {
        reloc_map(self.source, self.target)
    }

    closed spec fn target_now(&self) -> Map<Ref, TI> {
        self.target.items()
    }

    closed spec fn remaining(&self) -> Seq<(Ref, SI)> {
        reloc_entries(self.source.cells_view(), self.source.spec_uid(), self.next_index as int)
    }

    closed spec fn cur_src(&self) -> SI {
        self.cur@
    }

    closed spec fn pending(&self) -> Ref {
        target_ref_at(self.target, self.reloc_index as int)
    }

    open spec fn item_of(s: SI) -> SI {
        s
    }

    open spec fn restore(rmap: Map<Ref, Ref>, s: SI, ti: TI) -> TI {
        ti
    }

    open spec fn merged_items(fm: &Arena<TI>) -> Map<Ref, TI> {
        fm.items()
    }

    open spec fn merged_ok(fm: &Arena<TI>) -> bool {
        fm.wf()
    }

    open spec fn empty_ok(fe: &Arena<SI>) -> bool {
        fe.wf() && fe.items() == Map::<Ref, SI>::empty()
    }

    fn ref_transform(&self, source_ref: Ref) -> (r: Option<Ref>) {
        transform_ref(&self.target, &self.source, source_ref)
    }

    fn proceed(self, transformed_item: TI) -> (st: MergeState<
        Ref,
        SI,
        SetsInProgressMerger<SI, TI>,
        Arena<TI>,
        Arena<SI>,
    >) {
        let SetsInProgressMerger { source, target, next_index, reloc_index, cur: _ } = self;
        let mut target = target;
        let ghost t1 = target;
        let ghost ti = transformed_item;
        let cell = &mut target.cells[reloc_index];
        cell.state = CellState::Regular { item: Some(transformed_item) };
        proof {
            assert(target.cells@ =~= t1.cells_view().update(
                reloc_index as int,
                Cell {
                    serial: t1.cells_view()[reloc_index as int].serial,
                    state: CellState::Regular { item: Some(ti) },
                },
            ));
            lemma_proceed_ok(source, t1, target, next_index as int, reloc_index as int, ti);
        }
        SetsInProgressMerger::make_state(source, target, next_index)
    }
}

/// Merge completeness for arenas: after a full identity drive, the merged
/// contents hold the original target items unchanged, plus every source
/// item at exactly one slot — the one reached by applying the merge's
/// reference-remap to the item's original handle — and nothing else.
/// The hypotheses are exactly what `Arena::merge` ensures about its remap
/// and its pending entries; `res` is what `merge_no_transform` returns the
/// merged contents to be.
pub proof fn lemma_arena_merge_completeness<I>(
    rmap: Map<Ref, Ref>,
    tgt: Map<Ref, I>,
    rem: Seq<(Ref, I)>,
    res: Map<Ref, I>,
)
    requires
        entries_distinct(rem),
        forall|k: int| 0 <= k < rem.len() ==> rmap.contains_key((#[trigger] rem[k]).0),
        forall|k1: int, k2: int|
            0 <= k1 < k2 < rem.len() ==> rmap[(#[trigger] rem[k1]).0] != rmap[(
            #[trigger] rem[k2]).0],
        forall|k: int| 0 <= k < rem.len() ==> !tgt.contains_key(rmap[(#[trigger] rem[k]).0]),
        res == crate::merge::identity_merge_result::<
            Ref,
            Ref,
            I,
            Arena<I>,
            Arena<I>,
            SetsInProgressMerger<I, I>,
        >(rmap, tgt, rem),
    ensures
        forall|h: Ref| #[trigger]
            entries_map(rem).contains_key(h) ==> rmap.contains_key(h) && res.contains_key(
                rmap[h],
            ) && res[rmap[h]] == entries_map(rem)[h],
        forall|tr: Ref| #[trigger] tgt.contains_key(tr) ==> res.contains_key(tr) && res[tr]
            == tgt[tr],
        forall|tr: Ref| #[trigger]
            res.contains_key(tr) ==> tgt.contains_key(tr) || exists|h: Ref|
                #[trigger] entries_map(rem).contains_key(h) && tr == rmap[h],
{
    crate::merge::lemma_merge_completeness::<
        Ref,
        Ref,
        I,
        Arena<I>,
        Arena<I>,
        SetsInProgressMerger<I, I>,
    >(rmap, tgt, rem);
    assert forall|h: Ref| #[trigger] entries_map(rem).contains_key(h) implies rmap.contains_key(
        h,
    ) && res.contains_key(rmap[h]) && res[rmap[h]] == entries_map(rem)[h] by {
        lemma_entries_map_dom(rem, h);
        let k = choose|k: int| 0 <= k < rem.len() && (#[trigger] rem[k]).0 == h;
        lemma_entries_map_index(rem, k);
    }
    assert forall|tr: Ref| #[trigger] res.contains_key(tr) && !tgt.contains_key(tr) implies
        exists|h: Ref| #[trigger] entries_map(rem).contains_key(h) && tr == rmap[h] by {
        let k = choose|k: int| 0 <= k < rem.len() && tr == rmap[(#[trigger] rem[k]).0];
        lemma_entries_map_index(rem, k);
        assert(entries_map(rem).contains_key(rem[k].0) && tr == rmap[rem[k].0]);
    }
}

/// Handle validity: a handle issued by one arena is absent from every arena
/// with a different identity, even if the slot indices coincide.
pub proof fn lemma_handle_validity<T, U>(a: Arena<T>, b: Arena<U>, h: Ref)
    requires
        a.spec_uid() != b.spec_uid(),
        h.uid() == a.spec_uid(),
    ensures
        !b.items().contains_key(h),
{
}

/// Generational non-aliasing, part one: every handle that currently resolves
/// in a well-formed arena carries a serial number bounded by the arena's
/// counter.  Since `insert` always returns a handle with serial one past the
/// counter, a handle obtained earlier can never equal, nor resolve to, a
/// handle minted by a later insertion.
pub proof fn lemma_generational_non_aliasing<T>(a: Arena<T>, h: Ref)
    requires
        a.wf(),
        a.items().contains_key(h),
    ensures
        h.serial() <= a.spec_serial(),
{
}

} // verus!
