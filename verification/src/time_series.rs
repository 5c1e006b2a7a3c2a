//! A bounded LRU cache over a sparse, ordered key space.
//!
//! Buckets live in an arena indexed by key.  Each slot is absent,
//! a placeholder (known to exist on disk, not resident) or resident.
//! Resident slots are threaded into a doubly-linked LRU list expressed
//! as key-indexed `prev`/`next` links; a ghost sequence `order` (most
//! recent first) carries the list's shape through the proofs.

use vstd::prelude::*;

use crate::errors::{DbError, DbErrorKind};

verus! {

/// A discovered data file together with the date decoded from its path.
pub struct FileWithDate {
    pub name: String,
    pub date: usize,
}

/// A discovered file: the name of its parent folder and its full path.
pub struct FileInfo {
    pub folder: String,
    pub name: String,
}

impl FileInfo {
    /// Builds a `FileInfo` from a parent-folder name and a full path.
    pub fn new(folder: String, name: String) -> (r: FileInfo)
        ensures
            r.folder == folder,
            r.name == name,
    {
        FileInfo { folder, name }
    }

    /// The name of the parent folder this file was found under.
    pub fn get_folder(&self) -> (r: &String)
        ensures
            r == &self.folder,
    {
        &self.folder
    }

    /// The full path of the file.
    pub fn get_name(&self) -> (r: &String)
        ensures
            r == &self.name,
    {
        &self.name
    }

    /// Interprets the parent-folder name as a decimal number.
    pub fn convert_folder_name_to_number(&self) -> (r: Result<usize, DbError>)
        ensures
            (self.folder@.len() > 0 && crate::common::all_decimal_digits(self.folder@)
                && crate::common::decimal_value(self.folder@) <= usize::MAX as int)
                ==> (r matches Ok(v) && v as int == crate::common::decimal_value(self.folder@)),
            !(self.folder@.len() > 0 && crate::common::all_decimal_digits(self.folder@)
                && crate::common::decimal_value(self.folder@) <= usize::MAX as int)
                ==> (r matches Err(e) && e.kind == DbErrorKind::InvalidData),
    {
        crate::common::parse_decimal(self.folder.as_str())
    }
}

/// A storage backend that reads and writes one bucket's files for a
/// given key.  Implementations perform the actual I/O; the cache is
/// oblivious to the format.
pub trait DatedSource<T> {
    /// Reads and merges the given files into one bucket.
    fn load(&mut self, files: Vec<FileWithDate>) -> Result<T, DbError>;

    /// Derives the calendar date from a discovered file.
    fn parse_date(&self, info: &FileInfo) -> Result<usize, DbError>;

    /// Persists one bucket.
    fn save(&mut self, data: &T, data_folder_path: &String, date: usize) -> Result<(), DbError>;

    /// Enumerates the files comprising the bucket at `date`.
    fn get_files(&mut self, data_folder_path: &String, date: usize) -> Result<Vec<FileWithDate>, DbError>;
}

/// The user-supplied map from a date to a bucket key.  A negative
/// image signals an invalid date.  The map must be monotonic
/// non-decreasing in the date.
pub trait IndexCalculator {
    /// The mathematical index function.
    spec fn index_spec(&self, date: usize) -> int;

    /// Computes the index of a date.
    fn index(&self, date: usize) -> (r: isize)
        ensures
            r as int == self.index_spec(date),
    ;

    /// The index function never decreases as the date grows.
    proof fn lemma_monotonic(&self, d1: usize, d2: usize)
        requires
            d1 <= d2,
        ensures
            self.index_spec(d1) <= self.index_spec(d2),
    ;
}

/// The identity index: a date is its own bucket key, clamped at the
/// machine's signed range.
pub struct IdentityIndex;

impl IndexCalculator for IdentityIndex {
    open spec fn index_spec(&self, date: usize) -> int {
        if date > isize::MAX as usize {
            isize::MAX as int
        } else {
            date as int
        }
    }

    fn index(&self, date: usize) -> (r: isize)
        ensures
            r as int == self.index_spec(date),
    {
        if date > isize::MAX as usize {
            isize::MAX
        } else {
            date as isize
        }
    }

    proof fn lemma_monotonic(&self, d1: usize, d2: usize)
        ensures
            self.index_spec(d1) <= self.index_spec(d2),
    {
    }
}

/// The state of one arena slot.
#[derive(Clone, Copy, PartialEq, Eq, Structural, Debug)]
pub enum SlotState {
    /// No bucket is known at this key.
    Absent,
    /// A bucket exists on disk but is not in memory.
    Placeholder,
    /// The bucket is in memory and linked into the LRU list.
    Resident,
}

/// A bounded LRU cache of buckets of type `T`, backed by `S` and keyed
/// through the index function `I`.
pub struct TimeSeriesData<T, S: DatedSource<T>, I: IndexCalculator> {
    source: S,
    data_folder_path: String,
    index_calculator: I,
    max_active_items: usize,
    active_items: usize,
    slot: Vec<SlotState>,
    data: Vec<Option<T>>,
    prev: Vec<Option<usize>>,
    next: Vec<Option<usize>>,
    dirty: Vec<bool>,
    head: Option<usize>,
    tail: Option<usize>,
    max_index: Option<usize>,
    order: Ghost<Seq<usize>>,
}

impl<T, S: DatedSource<T>, I: IndexCalculator> TimeSeriesData<T, S, I> {
    /// How many keys the arena can hold; keys run from 0 to this bound.
    pub closed spec fn capacity(&self) -> int {
        self.slot@.len() as int
    }

    /// The residency bound this cache was built with.
    pub closed spec fn max_active(&self) -> int {
        self.max_active_items as int
    }

    /// How many buckets are resident.
    pub closed spec fn active_count(&self) -> int {
        self.active_items as int
    }

    /// The key is known: a bucket exists for it, resident or on disk.
    pub closed spec fn is_known(&self, k: int) -> bool {
        0 <= k < self.capacity() && self.slot@[k] != SlotState::Absent
    }

    /// The key's bucket is in memory and linked into the LRU list.
    pub closed spec fn is_resident(&self, k: int) -> bool {
        0 <= k < self.capacity() && self.slot@[k] == SlotState::Resident
    }

    /// The key's bucket is known but not resident.
    pub closed spec fn is_placeholder(&self, k: int) -> bool {
        0 <= k < self.capacity() && self.slot@[k] == SlotState::Placeholder
    }

    /// The key's in-memory bucket has diverged from disk.
    pub closed spec fn is_dirty(&self, k: int) -> bool {
        0 <= k < self.capacity() && self.dirty@[k]
    }

    /// The bucket resident at key `k`.
    pub closed spec fn payload(&self, k: int) -> T
        recommends
            self.is_resident(k),
    {
        self.data@[k]->Some_0
    }

    /// The resident keys in LRU order, most recently used first.
    pub closed spec fn lru_order(&self) -> Seq<usize> {
        self.order@
    }

    /// The most recently used resident key, if any.
    pub closed spec fn head_spec(&self) -> Option<usize> {
        self.head
    }

    /// The least recently used resident key, if any.
    pub closed spec fn tail_spec(&self) -> Option<usize> {
        self.tail
    }

    /// The forward link stored at key `k`.
    pub closed spec fn link_next(&self, k: int) -> Option<usize> {
        self.next@[k]
    }

    /// The backward link stored at key `k`.
    pub closed spec fn link_prev(&self, k: int) -> Option<usize> {
        self.prev@[k]
    }

    /// The index function this cache was built with.
    pub closed spec fn index_of(&self, date: usize) -> int {
        self.index_calculator.index_spec(date)
    }

    /// The greatest known key, if any key is known.
    pub closed spec fn max_known(&self) -> Option<usize> {
        self.max_index
    }

    /// The resident keys that would survive one eviction sweep, most
    /// recently used first: everything when under the bound, else the
    /// most recent `max_active - 1`.
    pub open spec fn surviving_order(&self) -> Seq<usize> {
        if self.active_count() >= self.max_active() {
            self.lru_order().take(self.max_active() - 1)
        } else {
            self.lru_order()
        }
    }

    /// The links, head and tail agree with the ghost LRU order.
    spec fn links_ok(&self) -> bool {
        let ord = self.order@;
        &&& ord.no_duplicates()
        &&& forall|i: int| 0 <= i < ord.len() ==> self.is_resident(#[trigger] ord[i] as int)
        &&& self.head == (if ord.len() == 0 { None::<usize> } else { Some(ord[0]) })
        &&& self.tail == (if ord.len() == 0 { None::<usize> } else { Some(ord[ord.len() - 1]) })
        &&& forall|i: int| 0 <= i < ord.len() ==> self.next@[#[trigger] ord[i] as int]
            == (if i + 1 < ord.len() { Some(ord[i + 1]) } else { None::<usize> })
        &&& forall|i: int| 0 <= i < ord.len() ==> self.prev@[#[trigger] ord[i] as int]
            == (if i > 0 { Some(ord[i - 1]) } else { None::<usize> })
    }

    /// Every resident key appears in the LRU order.
    spec fn covered(&self) -> bool {
        forall|k: int| 0 <= k < self.slot@.len() && #[trigger] self.slot@[k] == SlotState::Resident
            ==> self.order@.contains(k as usize)
    }

    /// The resident counter equals the length of the LRU order.
    spec fn count_ok(&self) -> bool {
        self.active_items == self.order@.len()
    }

    /// The arena columns are consistent with each other.
    spec fn arrays_ok(&self) -> bool {
        &&& self.data@.len() == self.slot@.len()
        &&& self.prev@.len() == self.slot@.len()
        &&& self.next@.len() == self.slot@.len()
        &&& self.dirty@.len() == self.slot@.len()
        &&& forall|k: int| 0 <= k < self.capacity()
            ==> ((#[trigger] self.data@[k]) is Some <==> self.slot@[k] == SlotState::Resident)
        &&& forall|k: int| 0 <= k < self.capacity() && #[trigger] self.dirty@[k]
            ==> self.slot@[k] == SlotState::Resident
    }

    /// `max_index` is the greatest known key, or nothing when no key
    /// is known.
    spec fn max_ok(&self) -> bool {
        match self.max_index {
            Some(m) => 0 <= m < self.slot@.len() && self.slot@[m as int] != SlotState::Absent
                && (forall|k: int| 0 <= k < self.slot@.len()
                    && #[trigger] self.slot@[k] != SlotState::Absent ==> k <= m as int),
            None => forall|k: int| 0 <= k < self.slot@.len()
                ==> #[trigger] self.slot@[k] == SlotState::Absent,
        }
    }

    /// The residency bound is positive and respected.
    spec fn bound_ok(&self) -> bool {
        &&& self.max_active_items >= 1
        &&& self.active_items <= self.max_active_items
    }

    /// The cache invariant: every resident key stands in the LRU list
    /// exactly once, placeholders never do, the dirty set is a subset
    /// of the resident set, and at most `max_active` buckets are
    /// resident.
    pub closed spec fn wf(&self) -> bool {
        &&& self.links_ok()
        &&& self.covered()
        &&& self.count_ok()
        &&& self.arrays_ok()
        &&& self.max_ok()
        &&& self.bound_ok()
    }

    /// Creates an empty cache.
    ///
    /// `capacity` bounds the key space; `max_active_items` bounds how
    /// many buckets may be resident at once and must be positive.
    pub fn new(
        data_folder_path: String,
        source: S,
        index_calculator: I,
        max_active_items: usize,
        capacity: usize,
    ) -> (r: Self)
        requires
            max_active_items >= 1,
        ensures
            r.wf(),
            r.capacity() == capacity,
            r.max_active() == max_active_items,
            r.active_count() == 0,
            r.lru_order() == Seq::<usize>::empty(),
            r.head_spec() is None,
            r.tail_spec() is None,
            forall|k: int| !r.is_known(k),
            forall|k: int| !r.is_resident(k),
            forall|k: int| !r.is_dirty(k),
            r.max_known() is None,
            forall|d: usize| r.index_of(d) == index_calculator.index_spec(d),
    {
        let mut slot: Vec<SlotState> = Vec::new();
        let mut data: Vec<Option<T>> = Vec::new();
        let mut prev: Vec<Option<usize>> = Vec::new();
        let mut next: Vec<Option<usize>> = Vec::new();
        let mut dirty: Vec<bool> = Vec::new();
        let mut i: usize = 0;
        while i < capacity
            invariant
                i <= capacity,
                slot@.len() == i,
                data@.len() == i,
                prev@.len() == i,
                next@.len() == i,
                dirty@.len() == i,
                forall|k: int| 0 <= k < i ==> slot@[k] == SlotState::Absent,
                forall|k: int| 0 <= k < i ==> (#[trigger] data@[k]) is None,
                forall|k: int| 0 <= k < i ==> !(#[trigger] dirty@[k]),
            decreases capacity - i,
        {
            slot.push(SlotState::Absent);
            data.push(None);
            prev.push(None);
            next.push(None);
            dirty.push(false);
            i += 1;
        }
        TimeSeriesData {
            source,
            data_folder_path,
            index_calculator,
            max_active_items,
            active_items: 0,
            slot,
            data,
            prev,
            next,
            dirty,
            head: None,
            tail: None,
            max_index: None,
            order: Ghost(Seq::empty()),
        }
    }

    /// The storage backend this cache was built with.
    pub closed spec fn source_spec(&self) -> S {
        self.source
    }

    /// A borrow of the storage backend.
    pub fn get_source(&self) -> (r: &S)
        ensures
            *r == self.source_spec(),
    {
        &self.source
    }

    /// How many buckets are resident right now.
    pub fn get_active_items(&self) -> (r: usize)
        ensures
            r == self.active_count(),
    {
        self.active_items
    }

    /// The most recently used resident key, if any.
    pub fn get_head(&self) -> (r: Option<usize>)
        ensures
            r == self.head_spec(),
    {
        self.head
    }

    /// The least recently used resident key, if any.
    pub fn get_tail(&self) -> (r: Option<usize>)
        ensures
            r == self.tail_spec(),
    {
        self.tail
    }

    /// The forward LRU link stored at `key`.
    pub fn get_next(&self, key: usize) -> (r: Option<usize>)
        requires
            0 <= key < self.capacity(),
            self.wf(),
        ensures
            r == self.link_next(key as int),
    {
        self.next[key]
    }

    /// The backward LRU link stored at `key`.
    pub fn get_prev(&self, key: usize) -> (r: Option<usize>)
        requires
            0 <= key < self.capacity(),
            self.wf(),
        ensures
            r == self.link_prev(key as int),
    {
        self.prev[key]
    }

    /// Whether the bucket at `key` is resident.
    pub fn resident_at(&self, key: usize) -> (r: bool)
        requires
            self.wf(),
        ensures
            r == self.is_resident(key as int),
    {
        key < self.slot.len() && self.slot[key] == SlotState::Resident
    }

    /// Whether the bucket at `key` is a placeholder.
    pub fn placeholder_at(&self, key: usize) -> (r: bool)
        requires
            self.wf(),
        ensures
            r == self.is_placeholder(key as int),
    {
        key < self.slot.len() && self.slot[key] == SlotState::Placeholder
    }

    /// Removing position `i` from a duplicate-free sequence keeps it
    /// duplicate-free, drops exactly the element at `i`, and keeps all
    /// the others.
    proof fn lemma_order_remove(ord: Seq<usize>, i: int)
        requires
            0 <= i < ord.len(),
            ord.no_duplicates(),
        ensures
            ord.remove(i).no_duplicates(),
            forall|x: usize| ord.remove(i).contains(x) <==> (ord.contains(x) && x != ord[i]),
    {
        ord.remove_ensures(i);
        let r = ord.remove(i);
        assert forall|x: usize| r.contains(x) implies (ord.contains(x) && x != ord[i]) by {
            let j = choose|j: int| 0 <= j < r.len() && r[j] == x;
            if j < i {
                assert(ord[j] == x);
            } else {
                assert(ord[j + 1] == x);
            }
        }
        assert forall|x: usize| ord.contains(x) && x != ord[i] implies r.contains(x) by {
            let j = choose|j: int| 0 <= j < ord.len() && ord[j] == x;
            if j < i {
                assert(r[j] == x);
            } else {
                assert(j > i);
                assert(r[j - 1] == x);
            }
        }
        assert forall|j: int, k: int| 0 <= j < k < r.len() implies r[j] != r[k] by {
            let j0 = if j < i { j } else { j + 1 };
            let k0 = if k < i { k } else { k + 1 };
            assert(r[j] == ord[j0]);
            assert(r[k] == ord[k0]);
        }
    }

    /// In a duplicate-free sequence, removing a value removes exactly
    /// its one position.
    proof fn lemma_remove_value_unique(ord: Seq<usize>, pos: int)
        requires
            ord.no_duplicates(),
            0 <= pos < ord.len(),
        ensures
            ord.remove_value(ord[pos]) == ord.remove(pos),
    {
        ord.index_of_first_ensures(ord[pos]);
        match ord.index_of_first(ord[pos]) {
            Some(i) => {
                if i != pos {
                    assert(ord[i] == ord[pos]);
                }
            },
            None => {
                assert(!ord.contains(ord[pos]));
            },
        }
    }

    /// Removing an absent value changes nothing.
    proof fn lemma_remove_value_absent(ord: Seq<usize>, key: usize)
        requires
            !ord.contains(key),
        ensures
            ord.remove_value(key) == ord,
    {
        ord.index_of_first_ensures(key);
        match ord.index_of_first(key) {
            Some(i) => {
                assert(ord[i] == key);
            },
            None => {},
        }
    }

    /// Splices `key` in front of the current head.  Pure link surgery:
    /// the caller accounts for the resident counter.
    fn attach_front(&mut self, key: usize)
        requires
            old(self).links_ok(),
            old(self).arrays_ok(),
            old(self).is_resident(key as int),
            !old(self).order@.contains(key),
        ensures
            final(self).links_ok(),
            final(self).arrays_ok(),
            final(self).order@ == seq![key] + old(self).order@,
            forall|x: usize| final(self).order@.contains(x) <==> (old(self).order@.contains(x) || x == key),
            forall|k: int| final(self).is_known(k) == old(self).is_known(k),
            final(self).slot == old(self).slot,
            final(self).data == old(self).data,
            final(self).dirty == old(self).dirty,
            final(self).active_items == old(self).active_items,
            final(self).max_index == old(self).max_index,
            final(self).max_active_items == old(self).max_active_items,
            final(self).source == old(self).source,
            final(self).data_folder_path == old(self).data_folder_path,
            final(self).index_calculator == old(self).index_calculator,
    {
        let ghost old_ord = self.order@;
        match self.head {
            Some(hh) => {
                proof {
                    assert(old_ord[0] == hh);
                    assert(self.is_resident(hh as int));
                }
                self.prev[hh] = Some(key);
            }
            None => {
                self.tail = Some(key);
            }
        }
        self.next[key] = self.head;
        self.prev[key] = None;
        self.head = Some(key);
        proof {
            self.order@ = seq![key] + old_ord;
            assert(forall|k: int| self.is_known(k) == old(self).is_known(k));
            let nord = self.order@;
            assert forall|x: usize| nord.contains(x) implies (old_ord.contains(x) || x == key) by {
                let j = choose|j: int| 0 <= j < nord.len() && nord[j] == x;
                if j > 0 {
                    assert(old_ord[j - 1] == x);
                }
            }
            assert forall|x: usize| old_ord.contains(x) implies nord.contains(x) by {
                let j = choose|j: int| 0 <= j < old_ord.len() && old_ord[j] == x;
                assert(nord[j + 1] == x);
            }
            assert(nord.contains(key)) by {
                assert(nord[0] == key);
            }
            assert forall|j: int, k: int| 0 <= j < k < nord.len() implies nord[j] != nord[k] by {
                if j == 0 {
                    assert(old_ord.contains(nord[k])) by {
                        assert(old_ord[k - 1] == nord[k]);
                    }
                } else {
                    assert(nord[j] == old_ord[j - 1]);
                    assert(nord[k] == old_ord[k - 1]);
                }
            }
        }
    }

    /// Unlinks `key`, standing at position `pos` of the LRU order.
    /// Pure link surgery: `key` stays resident and its own stored
    /// links go stale; the caller accounts for the counter.
    #[verifier::rlimit(40)]
    fn detach(&mut self, key: usize, Ghost(pos): Ghost<int>)
        requires
            old(self).links_ok(),
            old(self).arrays_ok(),
            0 <= pos < old(self).order@.len(),
            old(self).order@[pos] == key,
        ensures
            final(self).links_ok(),
            final(self).arrays_ok(),
            final(self).order@ == old(self).order@.remove(pos),
            !final(self).order@.contains(key),
            forall|x: usize| final(self).order@.contains(x) <==> (old(self).order@.contains(x) && x != key),
            forall|k: int| final(self).is_known(k) == old(self).is_known(k),
            final(self).slot == old(self).slot,
            final(self).data == old(self).data,
            final(self).dirty == old(self).dirty,
            final(self).active_items == old(self).active_items,
            final(self).max_index == old(self).max_index,
            final(self).max_active_items == old(self).max_active_items,
            final(self).source == old(self).source,
            final(self).data_folder_path == old(self).data_folder_path,
            final(self).index_calculator == old(self).index_calculator,
    {
        let ghost old_ord = self.order@;
        proof {
            assert(self.is_resident(key as int));
            if pos + 1 < old_ord.len() {
                assert(self.is_resident(old_ord[pos + 1] as int));
            }
            if pos > 0 {
                assert(self.is_resident(old_ord[pos - 1] as int));
            }
        }
        let p = self.prev[key];
        let n = self.next[key];
        match n {
            Some(nn) => {
                self.prev[nn] = p;
            }
            None => {
                self.tail = p;
            }
        }
        match p {
            Some(pp) => {
                self.next[pp] = n;
            }
            None => {
                self.head = n;
            }
        }
        proof {
            self.order@ = old_ord.remove(pos);
            assert(forall|k: int| self.is_known(k) == old(self).is_known(k));
            old_ord.remove_ensures(pos);
            Self::lemma_order_remove(old_ord, pos);
            let nord = self.order@;
            assert forall|i: int| 0 <= i < nord.len() implies self.next@[#[trigger] nord[i] as int]
                == (if i + 1 < nord.len() { Some(nord[i + 1]) } else { None::<usize> }) by {
                if i < pos - 1 {
                    assert(nord[i] == old_ord[i]);
                    assert(nord[i + 1] == old_ord[i + 1]);
                } else if i == pos - 1 {
                    assert(nord[i] == old_ord[pos - 1]);
                } else {
                    assert(nord[i] == old_ord[i + 1]);
                    if i + 1 < nord.len() {
                        assert(nord[i + 1] == old_ord[i + 2]);
                    }
                }
            }
            assert forall|i: int| 0 <= i < nord.len() implies self.prev@[#[trigger] nord[i] as int]
                == (if i > 0 { Some(nord[i - 1]) } else { None::<usize> }) by {
                if i < pos - 1 {
                    assert(nord[i] == old_ord[i]);
                } else if i == pos - 1 {
                    assert(nord[i] == old_ord[pos - 1]);
                } else if i == pos {
                    assert(nord[i] == old_ord[pos + 1]);
                    if i > 0 {
                        assert(nord[i - 1] == old_ord[pos - 1]);
                    }
                } else {
                    assert(nord[i] == old_ord[i + 1]);
                    assert(nord[i - 1] == old_ord[i]);
                }
            }
        }
    }

    /// Detaches `key` from its current position and reattaches it at
    /// the head of the LRU list.
    fn move_to_front(&mut self, key: usize, Ghost(pos): Ghost<int>)
        requires
            old(self).links_ok(),
            old(self).arrays_ok(),
            0 <= pos < old(self).order@.len(),
            old(self).order@[pos] == key,
        ensures
            final(self).links_ok(),
            final(self).arrays_ok(),
            final(self).order@ == seq![key] + old(self).order@.remove(pos),
            final(self).order@.len() == old(self).order@.len(),
            forall|x: usize| final(self).order@.contains(x) <==> old(self).order@.contains(x),
            forall|k: int| final(self).is_known(k) == old(self).is_known(k),
            final(self).slot == old(self).slot,
            final(self).data == old(self).data,
            final(self).dirty == old(self).dirty,
            final(self).active_items == old(self).active_items,
            final(self).max_index == old(self).max_index,
            final(self).max_active_items == old(self).max_active_items,
            final(self).source == old(self).source,
            final(self).data_folder_path == old(self).data_folder_path,
            final(self).index_calculator == old(self).index_calculator,
    {
        proof {
            assert(old(self).is_resident(key as int));
        }
        self.detach(key, Ghost(pos));
        self.attach_front(key);
    }

    /// Evicts the least recently used bucket, if any: a dirty bucket
    /// is saved first and leaves the dirty set; the slot becomes a
    /// placeholder.  A failed save leaves the bucket resident and
    /// still dirty.
    fn remove_by_lru(&mut self) -> (r: Result<(), DbError>)
        requires
            old(self).wf(),
        ensures
            final(self).wf(),
            final(self).capacity() == old(self).capacity(),
            final(self).max_active() == old(self).max_active(),
            forall|d: usize| final(self).index_of(d) == old(self).index_of(d),
            forall|j: int| final(self).is_known(j) == old(self).is_known(j),
            final(self).max_known() == old(self).max_known(),
            forall|j: int| final(self).is_dirty(j) ==> old(self).is_dirty(j),
            forall|j: int| final(self).is_resident(j) ==> old(self).is_resident(j)
                && final(self).payload(j) == old(self).payload(j)
                && final(self).is_dirty(j) == old(self).is_dirty(j),
            (forall|j: int| !old(self).is_dirty(j)) ==> r is Ok,
            match r {
                Ok(()) => {
                    if old(self).lru_order().len() == 0 {
                        final(self).lru_order() == old(self).lru_order()
                            && final(self).active_count() == old(self).active_count()
                            && (forall|j: int| final(self).is_dirty(j) == old(self).is_dirty(j))
                    } else {
                        final(self).lru_order() == old(self).lru_order().drop_last()
                            && final(self).active_count() == old(self).active_count() - 1
                            && final(self).is_placeholder(old(self).lru_order().last() as int)
                            && !final(self).is_dirty(old(self).lru_order().last() as int)
                    }
                },
                Err(_) => {
                    &&& final(self).lru_order() == old(self).lru_order()
                    &&& final(self).active_count() == old(self).active_count()
                    &&& forall|j: int| final(self).is_dirty(j) == old(self).is_dirty(j)
                    &&& forall|j: int| final(self).is_resident(j) == old(self).is_resident(j)
                },
            },
    {
        let t = self.tail;
        match t {
            None => Ok(()),
            Some(h) => {
                let ghost old_ord = self.order@;
                proof {
                    assert(old_ord.len() > 0);
                    assert(old_ord[old_ord.len() - 1] == h);
                    assert(self.is_resident(h as int));
                }
                if self.dirty[h] {
                    proof {
                        assert(old(self).is_dirty(h as int));
                    }
                    let res = self.source.save(self.data[h].as_ref().unwrap(), &self.data_folder_path, h);
                    match res {
                        Ok(()) => {},
                        Err(e) => {
                            return Err(e);
                        },
                    }
                    self.dirty[h] = false;
                }
                self.detach(h, Ghost(old_ord.len() - 1));
                self.slot[h] = SlotState::Placeholder;
                self.data[h] = None;
                self.active_items = self.active_items - 1;
                proof {
                    assert(forall|k: int| self.is_known(k) == old(self).is_known(k));
                    assert(self.order@ =~= old_ord.drop_last());
                }
                Ok(())
            },
        }
    }

    /// Evicts least recently used buckets until fewer than
    /// `max_active` are resident.
    fn cleanup(&mut self) -> (r: Result<(), DbError>)
        requires
            old(self).wf(),
        ensures
            final(self).wf(),
            final(self).capacity() == old(self).capacity(),
            final(self).max_active() == old(self).max_active(),
            forall|d: usize| final(self).index_of(d) == old(self).index_of(d),
            forall|j: int| final(self).is_known(j) == old(self).is_known(j),
            final(self).max_known() == old(self).max_known(),
            forall|j: int| final(self).is_dirty(j) ==> old(self).is_dirty(j),
            forall|j: int| final(self).is_resident(j) ==> old(self).is_resident(j)
                && final(self).payload(j) == old(self).payload(j)
                && final(self).is_dirty(j) == old(self).is_dirty(j),
            final(self).lru_order()
                == old(self).lru_order().take(final(self).lru_order().len() as int),
            r is Ok ==> final(self).active_count() < final(self).max_active(),
            r is Ok ==> final(self).active_count()
                == (if old(self).active_count() >= old(self).max_active() {
                    old(self).max_active() - 1
                } else {
                    old(self).active_count()
                }),
            r is Ok ==> final(self).lru_order() == old(self).surviving_order(),
            (forall|j: int| !old(self).is_dirty(j)) ==> r is Ok,
            old(self).active_count() < old(self).max_active() ==> r is Ok
                && final(self).lru_order() == old(self).lru_order()
                && final(self).active_count() == old(self).active_count()
                && (forall|j: int| final(self).is_dirty(j) == old(self).is_dirty(j))
                && (forall|j: int| final(self).is_resident(j) == old(self).is_resident(j))
                && (forall|j: int| final(self).is_resident(j)
                    ==> final(self).payload(j) == old(self).payload(j)),
    {
        let ghost orig = *self;
        proof {
            assert(orig.lru_order().take(orig.lru_order().len() as int) =~= orig.lru_order());
        }
        if self.active_items < self.max_active_items {
            proof {
                assert(self.lru_order() =~= orig.surviving_order());
            }
            return Ok(());
        }
        loop
            invariant
                orig == *old(self),
                orig.active_count() >= orig.max_active(),
                self.active_count() >= orig.max_active() - 1,
                self.wf(),
                self.capacity() == orig.capacity(),
                self.max_active() == orig.max_active(),
                forall|d: usize| self.index_of(d) == orig.index_of(d),
                forall|j: int| self.is_known(j) == orig.is_known(j),
                self.max_known() == orig.max_known(),
                forall|j: int| self.is_dirty(j) ==> orig.is_dirty(j),
                forall|j: int| self.is_resident(j) ==> orig.is_resident(j)
                    && self.payload(j) == orig.payload(j)
                    && self.is_dirty(j) == orig.is_dirty(j),
                self.lru_order().len() <= orig.lru_order().len(),
                self.lru_order() == orig.lru_order().take(self.lru_order().len() as int),
            decreases self.active_items,
        {
            if self.active_items < self.max_active_items {
                proof {
                    assert(self.lru_order() =~= orig.surviving_order());
                }
                return Ok(());
            }
            let ghost before = self.lru_order();
            let ghost pre = *self;
            match self.remove_by_lru() {
                Ok(()) => {},
                Err(e) => {
                    proof {
                        if forall|j: int| !orig.is_dirty(j) {
                            assert forall|j: int| !pre.is_dirty(j) by {
                                if pre.is_dirty(j) {
                                    assert(orig.is_dirty(j));
                                }
                            }
                            assert(false);
                        }
                    }
                    return Err(e);
                },
            }
            proof {
                assert(before.len() > 0);
                let nord = self.lru_order();
                assert(nord == before.drop_last());
                assert forall|i: int| 0 <= i < nord.len() implies nord[i]
                    == orig.lru_order().take(nord.len() as int)[i] by {
                    assert(before[i] == orig.lru_order().take(before.len() as int)[i]);
                    assert(before[i] == orig.lru_order()[i]);
                }
                assert(nord =~= orig.lru_order().take(nord.len() as int));
            }
        }
    }

    /// Installs a bucket at `key` when the bound leaves room: an
    /// existing resident bucket is replaced and re-linked at the LRU
    /// head, any other slot becomes resident and is linked at the
    /// head.
    fn insert_at(&mut self, key: usize, v: T, add_to_modified: bool)
        requires
            old(self).wf(),
            key < old(self).capacity(),
            old(self).active_count() < old(self).max_active(),
        ensures
            final(self).wf(),
            final(self).capacity() == old(self).capacity(),
            final(self).max_active() == old(self).max_active(),
            forall|d: usize| final(self).index_of(d) == old(self).index_of(d),
            final(self).active_count() <= final(self).max_active(),
            final(self).active_count() == old(self).active_count()
                + (if old(self).is_resident(key as int) { 0int } else { 1int }),
            final(self).is_resident(key as int),
            final(self).payload(key as int) == v,
            final(self).head_spec() == Some(key),
            final(self).lru_order() == seq![key] + old(self).lru_order().remove_value(key),
            forall|j: int| final(self).is_known(j) == (old(self).is_known(j) || j == key as int),
            final(self).is_dirty(key as int)
                == (add_to_modified || old(self).is_dirty(key as int)),
            forall|j: int| j != key as int
                ==> final(self).is_dirty(j) == old(self).is_dirty(j),
            forall|j: int| final(self).is_dirty(j)
                ==> (old(self).is_dirty(j) || (j == key as int && add_to_modified)),
            forall|j: int| j != key as int && final(self).is_resident(j)
                ==> old(self).is_resident(j) && final(self).payload(j) == old(self).payload(j),
            final(self).max_known() matches Some(m) && key <= m
                && (old(self).max_known() matches Some(m0) ==> m0 <= m),
    {
        if self.slot[key] == SlotState::Resident {
            self.data[key] = Some(v);
            let ghost pos = self.order@.index_of(key);
            proof {
                assert(self.order@.contains(key));
                assert(0 <= pos < self.order@.len() && self.order@[pos] == key);
                assert(self.links_ok());
                assert(self.arrays_ok());
            }
            self.move_to_front(key, Ghost(pos));
            proof {
                assert(self.covered());
                assert(self.count_ok());
                assert(self.max_ok());
                Self::lemma_remove_value_unique(old(self).lru_order(), pos);
            }
        } else {
            let ghost cleaned = *self;
            self.data[key] = Some(v);
            self.slot[key] = SlotState::Resident;
            proof {
                assert(self.links_ok());
                assert(self.arrays_ok());
                assert(!self.order@.contains(key)) by {
                    if self.order@.contains(key) {
                        let i = self.order@.index_of(key);
                        assert(cleaned.is_resident(self.order@[i] as int));
                    }
                }
            }
            self.attach_front(key);
            self.active_items = self.active_items + 1;
            proof {
                assert(self.covered());
                assert(self.count_ok());
                assert(self.bound_ok());
                Self::lemma_remove_value_absent(old(self).lru_order(), key);
            }
        }
        if add_to_modified {
            self.dirty[key] = true;
        }
        proof {
            assert(self.links_ok() && self.covered() && self.count_ok() && self.arrays_ok()
                && self.bound_ok());
        }
        match self.max_index {
            Some(m) => {
                if key > m {
                    self.max_index = Some(key);
                }
            },
            None => {
                self.max_index = Some(key);
            },
        }
        proof {
            assert(self.max_ok());
            assert(self.wf());
        }
    }

    /// Inserts a bucket at `key`, evicting first so that the residency
    /// bound holds.  An existing resident bucket is replaced and
    /// re-linked at the LRU head.  With `add_to_modified` the bucket
    /// joins the dirty set.  A failed eviction save aborts the insert.
    #[verifier::rlimit(50)]
    #[verifier::spinoff_prover]
    pub fn add(&mut self, key: usize, v: T, add_to_modified: bool) -> (r: Result<(), DbError>)
        requires
            old(self).wf(),
            key < old(self).capacity(),
        ensures
            final(self).wf(),
            final(self).capacity() == old(self).capacity(),
            final(self).max_active() == old(self).max_active(),
            forall|d: usize| final(self).index_of(d) == old(self).index_of(d),
            final(self).active_count() <= final(self).max_active(),
            old(self).active_count() < old(self).max_active() ==> r is Ok
                && final(self).active_count() == old(self).active_count()
                    + (if old(self).is_resident(key as int) { 0int } else { 1int }),
            (forall|j: int| !old(self).is_dirty(j)) ==> r is Ok,
            match r {
                Ok(()) => {
                    &&& final(self).is_resident(key as int)
                    &&& final(self).payload(key as int) == v
                    &&& final(self).head_spec() == Some(key)
                    &&& final(self).lru_order()
                        == seq![key] + old(self).surviving_order().remove_value(key)
                    &&& forall|j: int| final(self).is_known(j)
                        == (old(self).is_known(j) || j == key as int)
                    &&& final(self).is_dirty(key as int) == (add_to_modified
                        || (old(self).is_dirty(key as int)
                            && old(self).surviving_order().contains(key)))
                    &&& forall|j: int| final(self).is_dirty(j)
                        ==> (old(self).is_dirty(j) || (j == key as int && add_to_modified))
                    &&& forall|j: int| j != key as int && final(self).is_resident(j)
                        ==> old(self).is_resident(j)
                            && final(self).payload(j) == old(self).payload(j)
                            && final(self).is_dirty(j) == old(self).is_dirty(j)
                    &&& final(self).max_known() matches Some(m)
                        && key <= m
                        && (old(self).max_known() matches Some(m0) ==> m0 <= m)
                },
                Err(_) => {
                    &&& forall|j: int| final(self).is_known(j) == old(self).is_known(j)
                    &&& final(self).max_known() == old(self).max_known()
                    &&& forall|j: int| final(self).is_dirty(j) ==> old(self).is_dirty(j)
                    &&& forall|j: int| final(self).is_resident(j) ==> old(self).is_resident(j)
                        && final(self).payload(j) == old(self).payload(j)
                },
            },
    {
        match self.cleanup() {
            Ok(()) => {},
            Err(e) => {
                return Err(e);
            },
        }
        let ghost mid = *self;
        proof {
            assert(mid.lru_order() == old(self).surviving_order());
            if mid.is_resident(key as int) {
                assert(mid.order@.contains(key));
            } else {
                assert(!mid.order@.contains(key)) by {
                    if mid.order@.contains(key) {
                        let i = mid.order@.index_of(key);
                        assert(mid.is_resident(mid.order@[i] as int));
                    }
                }
                assert(!mid.is_dirty(key as int));
            }
        }
        self.insert_at(key, v, add_to_modified);
        proof {
            assert(self.is_dirty(key as int)
                == (add_to_modified || mid.is_dirty(key as int)));
            assert(mid.is_dirty(key as int) == (old(self).is_dirty(key as int)
                && old(self).surviving_order().contains(key))) by {
                if mid.is_resident(key as int) {
                    assert(mid.is_dirty(key as int) == old(self).is_dirty(key as int));
                } else {
                    if old(self).surviving_order().contains(key) {
                        let i = choose|i: int| 0 <= i < mid.order@.len()
                            && mid.order@[i] == key;
                        assert(mid.is_resident(mid.order@[i] as int));
                    }
                }
            }
        }
        Ok(())
    }

    /// The greatest known key not exceeding `idx`, or `-1` when no
    /// key at or below `idx` is known.
    pub open spec fn greatest_known_le(&self, idx: int) -> int
        decreases idx + 1,
    {
        if idx < 0 {
            -1
        } else if self.is_known(idx) {
            idx
        } else {
            self.greatest_known_le(idx - 1)
        }
    }

    /// Scans downward from `idx` for the greatest known key.
    fn scan_down(&self, idx: usize) -> (r: Option<usize>)
        requires
            self.wf(),
            idx < self.capacity(),
        ensures
            match r {
                Some(k) => k as int == self.greatest_known_le(idx as int)
                    && self.is_known(k as int),
                None => self.greatest_known_le(idx as int) == -1,
            },
    {
        let mut i: usize = idx;
        loop
            invariant
                self.wf(),
                idx < self.capacity(),
                i <= idx,
                self.greatest_known_le(idx as int) == self.greatest_known_le(i as int),
            decreases i,
        {
            if self.slot[i] != SlotState::Absent {
                return Some(i);
            }
            if i == 0 {
                proof {
                    assert(!self.is_known(0));
                    assert(self.greatest_known_le(-1) == -1);
                    assert(self.greatest_known_le(0) == self.greatest_known_le(-1));
                }
                return None;
            }
            i = i - 1;
        }
    }

    /// Moves the already resident bucket at `key` to the LRU head.
    fn promote(&mut self, key: usize)
        requires
            old(self).wf(),
            old(self).is_resident(key as int),
        ensures
            final(self).wf(),
            final(self).capacity() == old(self).capacity(),
            final(self).max_active() == old(self).max_active(),
            forall|d: usize| final(self).index_of(d) == old(self).index_of(d),
            forall|j: int| final(self).is_known(j) == old(self).is_known(j),
            final(self).max_known() == old(self).max_known(),
            final(self).active_count() == old(self).active_count(),
            forall|j: int| final(self).is_dirty(j) == old(self).is_dirty(j),
            forall|j: int| final(self).is_resident(j) == old(self).is_resident(j),
            forall|j: int| final(self).is_resident(j)
                ==> final(self).payload(j) == old(self).payload(j),
            final(self).head_spec() == Some(key),
            final(self).lru_order() == seq![key] + old(self).lru_order().remove_value(key),
    {
        let ghost pos = self.order@.index_of(key);
        proof {
            assert(self.order@.contains(key));
            assert(0 <= pos < self.order@.len() && self.order@[pos] == key);
        }
        self.move_to_front(key, Ghost(pos));
        proof {
            assert(self.covered());
            assert(self.count_ok());
            assert(self.wf());
            Self::lemma_remove_value_unique(old(self).lru_order(), pos);
        }
    }

    /// Loads the placeholder bucket at `key` from the source and
    /// links it at the LRU head, evicting first so that the bound
    /// holds.  The fresh bucket is clean.  A failed eviction save or
    /// load leaves the placeholder intact.
    #[verifier::rlimit(100)]
    #[verifier::spinoff_prover]
    fn fault_in(&mut self, key: usize) -> (r: Result<(), DbError>)
        requires
            old(self).wf(),
            old(self).is_placeholder(key as int),
        ensures
            final(self).wf(),
            final(self).capacity() == old(self).capacity(),
            final(self).max_active() == old(self).max_active(),
            forall|d: usize| final(self).index_of(d) == old(self).index_of(d),
            forall|j: int| final(self).is_known(j) == old(self).is_known(j),
            final(self).max_known() == old(self).max_known(),
            final(self).active_count() <= final(self).max_active(),
            forall|j: int| final(self).is_dirty(j) ==> old(self).is_dirty(j),
            forall|j: int| j != key as int && final(self).is_resident(j)
                ==> old(self).is_resident(j)
                    && final(self).payload(j) == old(self).payload(j)
                    && final(self).is_dirty(j) == old(self).is_dirty(j),
            !final(self).is_dirty(key as int),
            match r {
                Ok(()) => final(self).is_resident(key as int)
                    && final(self).head_spec() == Some(key)
                    && final(self).lru_order() == seq![key] + old(self).surviving_order(),
                Err(_) => final(self).is_placeholder(key as int),
            },
    {
        proof {
            assert(!old(self).is_dirty(key as int));
        }
        match self.cleanup() {
            Ok(()) => {},
            Err(e) => {
                proof {
                    assert(!self.is_resident(key as int) && self.is_known(key as int));
                    assert(!self.is_dirty(key as int));
                }
                return Err(e);
            },
        }
        let ghost cl = *self;
        proof {
            assert(!cl.is_resident(key as int) && cl.is_known(key as int));
            assert(cl.is_placeholder(key as int));
            assert(!cl.is_dirty(key as int));
        }
        let files = match self.source.get_files(&self.data_folder_path, key) {
            Ok(f) => f,
            Err(e) => {
                proof {
                    assert(self.is_placeholder(key as int));
                    assert(!self.is_dirty(key as int));
                }
                return Err(e);
            },
        };
        let t = match self.source.load(files) {
            Ok(t) => t,
            Err(e) => {
                proof {
                    assert(self.is_placeholder(key as int));
                    assert(!self.is_dirty(key as int));
                }
                return Err(e);
            },
        };
        proof {
            assert(self.is_placeholder(key as int));
            assert(self.active_count() < self.max_active());
        }
        self.install_loaded(key, t);
        Ok(())
    }

    /// Installs a freshly loaded bucket into its placeholder slot and
    /// links it at the LRU head.
    fn install_loaded(&mut self, key: usize, t: T)
        requires
            old(self).wf(),
            old(self).is_placeholder(key as int),
            old(self).active_count() < old(self).max_active(),
        ensures
            final(self).wf(),
            final(self).capacity() == old(self).capacity(),
            final(self).max_active() == old(self).max_active(),
            forall|d: usize| final(self).index_of(d) == old(self).index_of(d),
            forall|j: int| final(self).is_known(j) == old(self).is_known(j),
            final(self).max_known() == old(self).max_known(),
            final(self).active_count() == old(self).active_count() + 1,
            forall|j: int| final(self).is_dirty(j) == old(self).is_dirty(j),
            forall|j: int| j != key as int
                ==> final(self).is_resident(j) == old(self).is_resident(j),
            forall|j: int| j != key as int && final(self).is_resident(j)
                ==> final(self).payload(j) == old(self).payload(j),
            final(self).is_resident(key as int),
            final(self).payload(key as int) == t,
            final(self).head_spec() == Some(key),
            final(self).lru_order() == seq![key] + old(self).lru_order(),
            !final(self).is_dirty(key as int),
    {
        let ghost cleaned = *self;
        self.data[key] = Some(t);
        self.slot[key] = SlotState::Resident;
        proof {
            assert(self.links_ok());
            assert(self.arrays_ok());
            assert(!self.order@.contains(key)) by {
                if self.order@.contains(key) {
                    let i = self.order@.index_of(key);
                    assert(cleaned.is_resident(self.order@[i] as int));
                }
            }
        }
        self.attach_front(key);
        self.active_items = self.active_items + 1;
        proof {
            assert(self.wf());
        }
    }

    /// Makes the known bucket at `key` resident and moves it to the
    /// LRU head, faulting it in from the source if it was only a
    /// placeholder.  A freshly loaded bucket is clean.  A failed
    /// eviction save or load leaves the placeholder intact.
    pub fn touch(&mut self, key: usize) -> (r: Result<(), DbError>)
        requires
            old(self).wf(),
            old(self).is_known(key as int),
        ensures
            final(self).wf(),
            final(self).capacity() == old(self).capacity(),
            final(self).max_active() == old(self).max_active(),
            forall|d: usize| final(self).index_of(d) == old(self).index_of(d),
            forall|j: int| final(self).is_known(j) == old(self).is_known(j),
            final(self).max_known() == old(self).max_known(),
            final(self).active_count() <= final(self).max_active(),
            forall|j: int| final(self).is_dirty(j) ==> old(self).is_dirty(j),
            forall|j: int| j != key as int && final(self).is_resident(j)
                ==> old(self).is_resident(j)
                    && final(self).payload(j) == old(self).payload(j)
                    && final(self).is_dirty(j) == old(self).is_dirty(j),
            old(self).is_resident(key as int) ==> (
                r is Ok
                && final(self).active_count() == old(self).active_count()
                && (forall|j: int| final(self).is_resident(j) == old(self).is_resident(j))
                && (forall|j: int| final(self).is_dirty(j) == old(self).is_dirty(j))
                && (forall|j: int| final(self).is_resident(j)
                    ==> final(self).payload(j) == old(self).payload(j))
                && final(self).lru_order()
                    == seq![key] + old(self).lru_order().remove_value(key)
            ),
            match r {
                Ok(()) => {
                    &&& final(self).is_resident(key as int)
                    &&& final(self).head_spec() == Some(key)
                    &&& (old(self).is_resident(key as int)
                        ==> final(self).payload(key as int) == old(self).payload(key as int)
                            && final(self).is_dirty(key as int) == old(self).is_dirty(key as int))
                    &&& (!old(self).is_resident(key as int)
                        ==> !final(self).is_dirty(key as int)
                            && final(self).lru_order()
                                == seq![key] + old(self).surviving_order())
                },
                Err(_) => {
                    &&& !old(self).is_resident(key as int)
                    &&& final(self).is_placeholder(key as int)
                    &&& !final(self).is_dirty(key as int)
                },
            },
    {
        if self.slot[key] == SlotState::Resident {
            self.promote(key);
            Ok(())
        } else {
            self.fault_in(key)
        }
    }

    /// Returns the bucket at the greatest known key at most
    /// `index(date)`, lazily loading it and promoting it to the LRU
    /// head; `None` when no key at or below the index is known, and
    /// an invalid-input error for a negative index.
    pub fn get(&mut self, date: usize) -> (r: Result<Option<&T>, DbError>)
        requires
            old(self).wf(),
            old(self).index_of(date) < old(self).capacity(),
        ensures
            final(self).wf(),
            final(self).capacity() == old(self).capacity(),
            final(self).max_active() == old(self).max_active(),
            forall|d: usize| final(self).index_of(d) == old(self).index_of(d),
            forall|j: int| final(self).is_known(j) == old(self).is_known(j),
            final(self).max_known() == old(self).max_known(),
            final(self).active_count() <= final(self).max_active(),
            forall|j: int| final(self).is_dirty(j) ==> old(self).is_dirty(j),
            old(self).index_of(date) < 0
                ==> (r matches Err(e) && e.kind == DbErrorKind::InvalidInput),
            ({
                let idx = old(self).index_of(date);
                let k = old(self).greatest_known_le(idx);
                &&& (idx >= 0 && k == -1 ==> (r matches Ok(b) && b is None))
                &&& (idx >= 0 && k >= 0 ==> !(r matches Ok(b) && b is None))
                &&& (idx >= 0 && k >= 0 && old(self).is_resident(k) ==> (
                    r is Ok
                    && final(self).active_count() == old(self).active_count()
                    && (forall|j: int| final(self).is_resident(j) == old(self).is_resident(j))
                    && (forall|j: int| final(self).is_dirty(j) == old(self).is_dirty(j))
                    && (forall|j: int| final(self).is_resident(j)
                        ==> final(self).payload(j) == old(self).payload(j))
                    && final(self).lru_order()
                        == seq![k as usize] + old(self).lru_order().remove_value(k as usize)
                ))
                &&& (idx >= 0 && k >= 0 && r is Err ==> !old(self).is_resident(k)
                    && final(self).is_placeholder(k)
                    && !final(self).is_dirty(k))
                &&& (r matches Ok(Some(bucket)) ==> {
                    &&& idx >= 0 && k >= 0
                    &&& final(self).is_resident(k)
                    &&& final(self).head_spec() == Some(k as usize)
                    &&& *bucket == final(self).payload(k)
                    &&& (old(self).is_resident(k)
                        ==> final(self).payload(k) == old(self).payload(k)
                            && final(self).is_dirty(k) == old(self).is_dirty(k))
                    &&& (!old(self).is_resident(k) ==> !final(self).is_dirty(k)
                        && final(self).lru_order()
                            == seq![k as usize] + old(self).surviving_order())
                })
            }),
            forall|j: int|
                j != old(self).greatest_known_le(old(self).index_of(date))
                    && final(self).is_resident(j)
                ==> old(self).is_resident(j)
                    && final(self).payload(j) == old(self).payload(j)
                    && final(self).is_dirty(j) == old(self).is_dirty(j),
    {
        let idx_signed = self.index_calculator.index(date);
        if idx_signed < 0 {
            return Err(DbError::new(DbErrorKind::InvalidInput, "invalid date".to_owned()));
        }
        let idx: usize = idx_signed as usize;
        match self.scan_down(idx) {
            None => Ok(None),
            Some(k) => {
                match self.touch(k) {
                    Ok(()) => Ok(Some(self.data[k].as_ref().unwrap())),
                    Err(e) => Err(e),
                }
            },
        }
    }

    /// Yields, in ascending order, every known key whose index lies
    /// in `[index(from), index(to)]`, faulting each bucket in and
    /// promoting it to the LRU head on the way.  A bucket already
    /// resident keeps its payload unless a later fault evicts and
    /// reloads it.
    pub fn get_range(&mut self, from: usize, to: usize) -> (r: Result<Vec<usize>, DbError>)
        requires
            old(self).wf(),
        ensures
            final(self).wf(),
            final(self).capacity() == old(self).capacity(),
            final(self).max_active() == old(self).max_active(),
            forall|d: usize| final(self).index_of(d) == old(self).index_of(d),
            forall|j: int| final(self).is_known(j) == old(self).is_known(j),
            final(self).max_known() == old(self).max_known(),
            final(self).active_count() <= final(self).max_active(),
            forall|j: int| final(self).is_dirty(j) ==> old(self).is_dirty(j),
            ({
                let lo = if old(self).index_of(from) < 0 { 0 } else { old(self).index_of(from) };
                let hi = old(self).index_of(to);
                &&& forall|j: int| final(self).is_resident(j) && old(self).is_resident(j)
                    && !(lo <= j <= hi)
                    ==> final(self).payload(j) == old(self).payload(j)
                        && final(self).is_dirty(j) == old(self).is_dirty(j)
                &&& forall|j: int| final(self).is_resident(j) && !old(self).is_resident(j)
                    ==> !final(self).is_dirty(j)
                &&& (hi >= 0 && (forall|j: int| lo <= j <= hi ==> !old(self).is_known(j))
                    ==> r is Ok)
                &&& (hi >= 0 && (forall|j: int| lo <= j <= hi && old(self).is_known(j)
                        ==> old(self).is_resident(j)) ==> r is Ok)
                &&& ((forall|j: int| lo <= j <= hi && old(self).is_known(j)
                        ==> old(self).is_resident(j)) ==> (
                    (forall|j: int| final(self).is_resident(j) == old(self).is_resident(j))
                    && (forall|j: int| final(self).is_resident(j)
                        ==> final(self).payload(j) == old(self).payload(j))
                    && (forall|j: int| final(self).is_dirty(j) == old(self).is_dirty(j))
                    && final(self).active_count() == old(self).active_count()
                ))
                &&& (r matches Ok(keys) ==> {
                    &&& forall|a: int, b: int| 0 <= a < b < keys@.len()
                        ==> keys@[a] < keys@[b]
                    &&& forall|x: usize| keys@.contains(x)
                        <==> (old(self).is_known(x as int) && lo <= x as int <= hi)
                    &&& (keys@.len() > 0 ==> final(self).head_spec() == Some(keys@.last())
                        && final(self).is_resident(keys@.last() as int))
                })
            }),
            old(self).max_known() is None ==> (r matches Ok(keys) && keys@ == Seq::<usize>::empty()),
            (old(self).max_known() is Some && old(self).index_of(to) < 0)
                ==> (r matches Err(e) && e.kind == DbErrorKind::InvalidInput),
    {
        let mx = match self.max_index {
            None => {
                return Ok(Vec::new());
            },
            Some(m) => m,
        };
        let idx1s = self.index_calculator.index(from);
        let idx1: usize = if idx1s < 0 { 0 } else { idx1s as usize };
        let idx2s = self.index_calculator.index(to);
        if idx2s < 0 {
            return Err(DbError::new(DbErrorKind::InvalidInput, "invalid date".to_owned()));
        }
        let mut idx2: usize = idx2s as usize;
        if idx2 > mx {
            idx2 = mx;
        }
        let cap = self.slot.len();
        let ghost orig = *self;
        let ghost lo = if orig.index_of(from) < 0 { 0int } else { orig.index_of(from) };
        let ghost hi = orig.index_of(to);
        let mut result: Vec<usize> = Vec::new();
        let mut i: usize = idx1;
        while i <= idx2
            invariant
                orig == *old(self),
                self.wf(),
                cap == orig.capacity(),
                idx2 < cap,
                idx1 <= i,
                i as int <= idx2 + 1 || i == idx1,
                lo == (if orig.index_of(from) < 0 { 0int } else { orig.index_of(from) }),
                hi == orig.index_of(to),
                hi >= 0,
                idx1 as int == lo,
                idx2 as int <= hi,
                orig.max_known() matches Some(m) && idx2 <= m
                    && (idx2 as int == hi || idx2 == m),
                self.capacity() == orig.capacity(),
                self.max_active() == orig.max_active(),
                forall|d: usize| self.index_of(d) == orig.index_of(d),
                forall|j: int| self.is_known(j) == orig.is_known(j),
                self.max_known() == orig.max_known(),
                self.active_count() <= self.max_active(),
                forall|j: int| self.is_dirty(j) ==> orig.is_dirty(j),
                forall|j: int| self.is_resident(j) && orig.is_resident(j)
                    && !(idx1 as int <= j < i as int)
                    ==> self.payload(j) == orig.payload(j)
                        && self.is_dirty(j) == orig.is_dirty(j),
                forall|j: int| self.is_resident(j) && !orig.is_resident(j)
                    ==> !self.is_dirty(j),
                (forall|j: int| lo <= j <= hi && orig.is_known(j) ==> orig.is_resident(j))
                    ==> (
                        (forall|j: int| self.is_resident(j) == orig.is_resident(j))
                        && (forall|j: int| self.is_resident(j)
                            ==> self.payload(j) == orig.payload(j))
                        && (forall|j: int| self.is_dirty(j) == orig.is_dirty(j))
                        && self.active_count() == orig.active_count()
                    ),
                forall|a: int, b: int| 0 <= a < b < result@.len()
                    ==> result@[a] < result@[b],
                forall|a: int| 0 <= a < result@.len() ==> result@[a] < i,
                forall|x: usize| result@.contains(x)
                    <==> (orig.is_known(x as int) && idx1 <= x && x < i && x <= idx2),
                result@.len() > 0 ==> self.head_spec() == Some(result@.last())
                    && self.is_resident(result@.last() as int),
            decreases idx2 + 1 - i,
        {
            if self.slot[i] != SlotState::Absent {
                let ghost pr = *self;
                proof {
                    assert(pr.is_known(i as int));
                    assert(lo <= i as int <= hi);
                }
                match self.touch(i) {
                    Ok(()) => {},
                    Err(e) => {
                        proof {
                            assert(!pr.is_resident(i as int));
                            assert(orig.is_known(i as int));
                            if forall|j: int| lo <= j <= hi && orig.is_known(j)
                                ==> orig.is_resident(j) {
                                assert(pr.is_resident(i as int));
                            }
                        }
                        return Err(e);
                    },
                }
                proof {
                    if forall|j: int| lo <= j <= hi && orig.is_known(j)
                        ==> orig.is_resident(j) {
                        assert(pr.is_known(i as int));
                        assert(orig.is_known(i as int));
                        assert(orig.is_resident(i as int));
                        assert(pr.is_resident(i as int) == orig.is_resident(i as int));
                        assert(pr.is_resident(i as int));
                        assert forall|j: int| self.is_resident(j) == orig.is_resident(j) by {
                            assert(self.is_resident(j) == pr.is_resident(j));
                        }
                        assert forall|j: int| self.is_resident(j)
                            implies self.payload(j) == orig.payload(j) by {
                            assert(pr.is_resident(j));
                            assert(self.payload(j) == pr.payload(j));
                        }
                        assert forall|j: int| self.is_dirty(j) == orig.is_dirty(j) by {
                            assert(self.is_dirty(j) == pr.is_dirty(j));
                        }
                    }
                }
                let ghost pre = result@;
                result.push(i);
                proof {
                    assert(result@.drop_last() =~= pre);
                    assert(result@.last() == i);
                    assert forall|x: usize| result@.contains(x)
                        implies (orig.is_known(x as int) && idx1 <= x && x < i + 1 && x <= idx2) by {
                        let a = choose|a: int| 0 <= a < result@.len() && result@[a] == x;
                        if a < result@.len() - 1 {
                            assert(pre[a] == x);
                            assert(pre.contains(x));
                        }
                    }
                    assert forall|x: usize| (orig.is_known(x as int) && idx1 <= x && x < i + 1
                        && x <= idx2) implies result@.contains(x) by {
                        if x == i {
                            assert(result@.last() == x);
                        } else {
                            assert(pre.contains(x));
                            let a = choose|a: int| 0 <= a < pre.len() && pre[a] == x;
                            assert(result@[a] == x);
                        }
                    }
                }
            }
            i = i + 1;
        }
        proof {
            assert forall|x: usize| (orig.is_known(x as int) && lo <= x as int <= hi)
                implies result@.contains(x) by {
                match orig.max_known() {
                    Some(m) => {
                        assert(x as int <= m as int);
                    },
                    None => {},
                }
            }
            assert(i > idx2);
            assert forall|j: int| self.is_resident(j) && orig.is_resident(j)
                && !(lo <= j <= hi) implies self.payload(j) == orig.payload(j)
                && self.is_dirty(j) == orig.is_dirty(j) by {
                assert(!(idx1 as int <= j < i as int));
            }
        }
        Ok(result)
    }

    /// A shared reference to the bucket resident at `key`.
    pub fn payload_ref(&self, key: usize) -> (r: &T)
        requires
            self.wf(),
            self.is_resident(key as int),
        ensures
            *r == self.payload(key as int),
    {
        self.data[key].as_ref().unwrap()
    }

    /// Replaces the payload of the resident bucket at `key` and hands
    /// back the previous one.  Links, dirtiness and LRU order are
    /// untouched.
    pub fn replace_payload(&mut self, key: usize, v: T) -> (r: T)
        requires
            old(self).wf(),
            old(self).is_resident(key as int),
        ensures
            final(self).wf(),
            r == old(self).payload(key as int),
            final(self).payload(key as int) == v,
            final(self).capacity() == old(self).capacity(),
            final(self).max_active() == old(self).max_active(),
            forall|d: usize| final(self).index_of(d) == old(self).index_of(d),
            forall|j: int| final(self).is_known(j) == old(self).is_known(j),
            forall|j: int| final(self).is_resident(j) == old(self).is_resident(j),
            forall|j: int| final(self).is_dirty(j) == old(self).is_dirty(j),
            final(self).max_known() == old(self).max_known(),
            final(self).active_count() == old(self).active_count(),
            final(self).lru_order() == old(self).lru_order(),
            final(self).head_spec() == old(self).head_spec(),
            final(self).tail_spec() == old(self).tail_spec(),
            forall|j: int| 0 <= j < old(self).capacity() && j != key as int
                ==> final(self).payload(j) == old(self).payload(j),
    {
        let old_opt = self.data[key].take();
        self.data[key] = Some(v);
        proof {
            assert(self.wf());
        }
        old_opt.unwrap()
    }

    /// Persists every dirty bucket and clears the dirty set, without
    /// evicting.  A failed save stops the sweep and leaves that
    /// bucket resident and dirty.
    pub fn flush(&mut self) -> (r: Result<(), DbError>)
        requires
            old(self).wf(),
        ensures
            final(self).wf(),
            final(self).capacity() == old(self).capacity(),
            final(self).max_active() == old(self).max_active(),
            forall|d: usize| final(self).index_of(d) == old(self).index_of(d),
            forall|j: int| final(self).is_known(j) == old(self).is_known(j),
            forall|j: int| final(self).is_resident(j) == old(self).is_resident(j),
            forall|j: int| final(self).payload(j) == old(self).payload(j),
            final(self).max_known() == old(self).max_known(),
            final(self).active_count() == old(self).active_count(),
            final(self).lru_order() == old(self).lru_order(),
            final(self).head_spec() == old(self).head_spec(),
            final(self).tail_spec() == old(self).tail_spec(),
            forall|j: int| final(self).is_dirty(j) ==> old(self).is_dirty(j),
            r is Ok ==> forall|j: int| !final(self).is_dirty(j),
            (forall|j: int| !old(self).is_dirty(j)) ==> r is Ok,
    {
        let ghost orig = *self;
        let cap = self.slot.len();
        let mut k: usize = 0;
        while k < cap
            invariant
                orig == *old(self),
                self.wf(),
                k <= cap,
                cap == self.capacity(),
                self.capacity() == orig.capacity(),
                self.max_active() == orig.max_active(),
                forall|d: usize| self.index_of(d) == orig.index_of(d),
                forall|j: int| self.is_known(j) == orig.is_known(j),
                forall|j: int| self.is_resident(j) == orig.is_resident(j),
                forall|j: int| self.payload(j) == orig.payload(j),
                self.max_known() == orig.max_known(),
                self.active_count() == orig.active_count(),
                self.lru_order() == orig.lru_order(),
                self.head_spec() == orig.head_spec(),
                self.tail_spec() == orig.tail_spec(),
                forall|j: int| self.is_dirty(j) ==> orig.is_dirty(j),
                forall|j: int| 0 <= j < k ==> !(#[trigger] self.dirty@[j]),
            decreases cap - k,
        {
            if self.dirty[k] {
                proof {
                    assert(self.is_resident(k as int));
                    assert(orig.is_dirty(k as int));
                }
                let res = self.source.save(self.data[k].as_ref().unwrap(), &self.data_folder_path, k);
                match res {
                    Ok(()) => {},
                    Err(e) => {
                        return Err(e);
                    },
                }
                self.dirty[k] = false;
            }
            k = k + 1;
        }
        proof {
            assert forall|j: int| !self.is_dirty(j) by {}
        }
        Ok(())
    }

    /// Builds a cache whose keys are discovered from the given files:
    /// each file's date is parsed by the source and mapped through
    /// the index function, and every distinct key becomes a
    /// placeholder.  File contents are not read.  A date with a
    /// negative index, or one whose key does not fit the capacity,
    /// is rejected as invalid input.
    pub fn init(
        data_folder_path: String,
        source: S,
        index_calculator: I,
        max_active_items: usize,
        capacity: usize,
        files: Vec<FileInfo>,
    ) -> (r: Result<Self, DbError>)
        requires
            max_active_items >= 1,
        ensures
            files@.len() == 0 ==> r is Ok,
            r matches Ok(c) ==> {
                &&& c.wf()
                &&& c.capacity() == capacity
                &&& c.max_active() == max_active_items
                &&& c.active_count() == 0
                &&& forall|j: int| !c.is_resident(j)
                &&& forall|j: int| !c.is_dirty(j)
                &&& forall|d: usize| c.index_of(d) == index_calculator.index_spec(d)
            },
    {
        let mut c = Self::new(data_folder_path, source, index_calculator, max_active_items, capacity);
        let n = files.len();
        let mut fi: usize = 0;
        while fi < n
            invariant
                c.wf(),
                fi <= n,
                n == files@.len(),
                c.capacity() == capacity,
                c.max_active() == max_active_items,
                c.active_count() == 0,
                forall|j: int| !c.is_resident(j),
                forall|j: int| !c.is_dirty(j),
                forall|d: usize| c.index_of(d) == index_calculator.index_spec(d),
            decreases n - fi,
        {
            let date = match c.source.parse_date(&files[fi]) {
                Ok(d) => d,
                Err(e) => {
                    return Err(e);
                },
            };
            let idx = c.index_calculator.index(date);
            if idx < 0 {
                return Err(DbError::new(DbErrorKind::InvalidInput, "invalid date".to_owned()));
            }
            let key = idx as usize;
            if key >= c.slot.len() {
                return Err(DbError::new(DbErrorKind::InvalidInput, "invalid date".to_owned()));
            }
            c.slot[key] = SlotState::Placeholder;
            match c.max_index {
                Some(m) => {
                    if key > m {
                        c.max_index = Some(key);
                    }
                },
                None => {
                    c.max_index = Some(key);
                },
            }
            proof {
                assert(c.wf());
            }
            fi = fi + 1;
        }
        Ok(c)
    }

    /// Builds a cache from the given files and immediately loads
    /// every discovered bucket, under the same eviction discipline as
    /// ordinary inserts.  The files of each key are handed to the
    /// source together; no bucket is dirty afterwards.
    pub fn load(
        data_folder_path: String,
        source: S,
        index_calculator: I,
        max_active_items: usize,
        capacity: usize,
        files: Vec<FileInfo>,
    ) -> (r: Result<Self, DbError>)
        requires
            max_active_items >= 1,
        ensures
            files@.len() == 0 ==> r is Ok,
            r matches Ok(c) ==> {
                &&& c.wf()
                &&& c.capacity() == capacity
                &&& c.max_active() == max_active_items
                &&& c.active_count() <= c.max_active()
                &&& forall|j: int| !c.is_dirty(j)
                &&& forall|d: usize| c.index_of(d) == index_calculator.index_spec(d)
            },
    {
        let mut groups: Vec<Option<Vec<FileWithDate>>> = Vec::new();
        let mut gi: usize = 0;
        while gi < capacity
            invariant
                gi <= capacity,
                groups@.len() == gi,
                forall|g: int| 0 <= g < gi ==> (#[trigger] groups@[g]) is None,
            decreases capacity - gi,
        {
            groups.push(None);
            gi = gi + 1;
        }
        let n = files.len();
        let mut fi: usize = 0;
        while fi < n
            invariant
                fi <= n,
                n == files@.len(),
                groups@.len() == capacity,
                files@.len() == 0 ==> forall|g: int| 0 <= g < groups@.len()
                    ==> (#[trigger] groups@[g]) is None,
            decreases n - fi,
        {
            let date = match source.parse_date(&files[fi]) {
                Ok(d) => d,
                Err(e) => {
                    return Err(e);
                },
            };
            let idx = index_calculator.index(date);
            if idx < 0 {
                return Err(DbError::new(DbErrorKind::InvalidInput, "invalid date".to_owned()));
            }
            let key = idx as usize;
            if key >= capacity {
                return Err(DbError::new(DbErrorKind::InvalidInput, "invalid date".to_owned()));
            }
            let mut g = match groups[key].take() {
                Some(g) => g,
                None => Vec::new(),
            };
            g.push(FileWithDate { name: files[fi].name.clone(), date });
            groups[key] = Some(g);
            fi = fi + 1;
        }
        let mut c = Self::new(data_folder_path, source, index_calculator, max_active_items, capacity);
        let mut key: usize = 0;
        while key < capacity
            invariant
                c.wf(),
                key <= capacity,
                groups@.len() == capacity,
                files@.len() == 0 ==> forall|g: int| 0 <= g < groups@.len()
                    ==> (#[trigger] groups@[g]) is None,
                c.capacity() == capacity,
                c.max_active() == max_active_items,
                c.active_count() <= c.max_active(),
                forall|j: int| !c.is_dirty(j),
                forall|d: usize| c.index_of(d) == index_calculator.index_spec(d),
            decreases capacity - key,
        {
            let ghost centry = c;
            match groups[key].take() {
                Some(fs) => {
                    let t = match c.source.load(fs) {
                        Ok(t) => t,
                        Err(e) => {
                            return Err(e);
                        },
                    };
                    let ghost pre = c;
                    match c.add(key, t, false) {
                        Ok(()) => {},
                        Err(e) => {
                            return Err(e);
                        },
                    }
                    proof {
                        assert forall|j: int| !c.is_dirty(j) by {
                            assert(!centry.is_dirty(j));
                            assert(!pre.is_dirty(j));
                            if c.is_dirty(j) {
                                assert(pre.is_dirty(j) || (j == key as int && false));
                                assert(false);
                            }
                        }
                    }
                },
                None => {},
            }
            key = key + 1;
        }
        Ok(c)
    }

    /// The keys visited by following `next` links from `at` for at
    /// most `n` steps.
    pub closed spec fn traverse_next(&self, at: Option<usize>, n: nat) -> Seq<usize>
        decreases n,
    {
        if n == 0 {
            Seq::empty()
        } else {
            match at {
                None => Seq::empty(),
                Some(k) => if (k as int) < self.capacity() {
                    seq![k] + self.traverse_next(self.next@[k as int], (n - 1) as nat)
                } else {
                    Seq::empty()
                },
            }
        }
    }

    /// The keys visited by following `prev` links from `at` for at
    /// most `n` steps.
    pub closed spec fn traverse_prev(&self, at: Option<usize>, n: nat) -> Seq<usize>
        decreases n,
    {
        if n == 0 {
            Seq::empty()
        } else {
            match at {
                None => Seq::empty(),
                Some(k) => if (k as int) < self.capacity() {
                    seq![k] + self.traverse_prev(self.prev@[k as int], (n - 1) as nat)
                } else {
                    Seq::empty()
                },
            }
        }
    }

    /// Following `next` links from position `i` of the LRU order
    /// reproduces the remainder of the order.
    proof fn lemma_traverse_next_from(&self, i: int)
        requires
            self.wf(),
            0 <= i <= self.lru_order().len(),
        ensures
            self.traverse_next(
                if i == self.lru_order().len() { None } else { Some(self.lru_order()[i]) },
                (self.lru_order().len() - i) as nat,
            ) == self.lru_order().subrange(i, self.lru_order().len() as int),
        decreases self.lru_order().len() - i,
    {
        let ord = self.order@;
        if i == ord.len() {
            assert(ord.subrange(i, ord.len() as int) =~= Seq::<usize>::empty());
        } else {
            assert(self.is_resident(ord[i] as int));
            self.lemma_traverse_next_from(i + 1);
            assert(self.next@[ord[i] as int]
                == (if i + 1 < ord.len() { Some(ord[i + 1]) } else { None::<usize> }));
            assert(seq![ord[i]] + ord.subrange(i + 1, ord.len() as int)
                =~= ord.subrange(i, ord.len() as int));
        }
    }

    /// Following `prev` links from position `i` of the LRU order
    /// reproduces the reversed front of the order.
    proof fn lemma_traverse_prev_from(&self, i: int)
        requires
            self.wf(),
            -1 <= i < self.lru_order().len(),
        ensures
            self.traverse_prev(
                if i < 0 { None } else { Some(self.lru_order()[i]) },
                (i + 1) as nat,
            ) == self.lru_order().subrange(0, i + 1).reverse(),
        decreases i + 1,
    {
        let ord = self.order@;
        if i < 0 {
            assert(ord.subrange(0, 0).reverse() =~= Seq::<usize>::empty());
        } else {
            assert(self.is_resident(ord[i] as int));
            self.lemma_traverse_prev_from(i - 1);
            assert(self.prev@[ord[i] as int]
                == (if i > 0 { Some(ord[i - 1]) } else { None::<usize> }));
            assert(seq![ord[i]] + ord.subrange(0, i).reverse()
                =~= ord.subrange(0, i + 1).reverse());
        }
    }

    /// Link integrity of the LRU list: walking `head` through the
    /// `next` links visits every resident key exactly once and no
    /// placeholder, and walking `tail` through the `prev` links
    /// visits the same keys in the opposite order.
    pub proof fn lemma_link_integrity(&self)
        requires
            self.wf(),
        ensures
            self.traverse_next(self.head_spec(), self.active_count() as nat) == self.lru_order(),
            self.traverse_prev(self.tail_spec(), self.active_count() as nat)
                == self.lru_order().reverse(),
            self.lru_order().no_duplicates(),
            forall|k: usize| self.is_resident(k as int) <==> self.lru_order().contains(k),
            forall|k: usize| self.is_placeholder(k as int) ==> !self.lru_order().contains(k),
            self.active_count() == self.lru_order().len(),
            self.head_spec() == (if self.lru_order().len() == 0 { None::<usize> }
                else { Some(self.lru_order()[0]) }),
            self.tail_spec() == (if self.lru_order().len() == 0 { None::<usize> }
                else { Some(self.lru_order().last()) }),
            forall|i: int| 0 <= i < self.lru_order().len()
                ==> self.link_next(#[trigger] self.lru_order()[i] as int)
                    == (if i + 1 < self.lru_order().len() { Some(self.lru_order()[i + 1]) }
                        else { None::<usize> }),
            forall|i: int| 0 <= i < self.lru_order().len()
                ==> self.link_prev(#[trigger] self.lru_order()[i] as int)
                    == (if i > 0 { Some(self.lru_order()[i - 1]) } else { None::<usize> }),
    {
        let ord = self.order@;
        self.lemma_traverse_next_from(0);
        assert(ord.subrange(0, ord.len() as int) =~= ord);
        self.lemma_traverse_prev_from(ord.len() - 1);
        assert(self.head_spec() == (if 0 == ord.len() { None::<usize> } else { Some(ord[0]) }));
        if ord.len() == 0 {
            assert(self.traverse_next(self.head_spec(), 0) =~= ord);
            assert(ord.reverse() =~= Seq::<usize>::empty());
        }
        assert forall|k: usize| self.lru_order().contains(k)
            implies self.is_resident(k as int) by {
            let i = choose|i: int| 0 <= i < ord.len() && ord[i] == k;
            assert(self.is_resident(ord[i] as int));
        }
    }

    /// The standing cache invariants, stated for callers: at most
    /// `max_active` buckets are resident, every dirty bucket is
    /// resident, and every resident bucket is known.
    pub proof fn lemma_cache_invariants(&self)
        requires
            self.wf(),
        ensures
            self.active_count() <= self.max_active(),
            forall|k: int| #[trigger] self.is_dirty(k) ==> self.is_resident(k),
            forall|k: int| #[trigger] self.is_resident(k) ==> self.is_known(k),
            forall|k: int| #[trigger] self.is_placeholder(k)
                <==> (self.is_known(k) && !self.is_resident(k)),
            self.active_count() == self.lru_order().len(),
    {
    }

    /// Every known key lies inside the arena's capacity.
    pub proof fn lemma_known_bounds(&self)
        ensures
            forall|k: int| #[trigger] self.is_known(k) ==> 0 <= k < self.capacity(),
            forall|k: int| #[trigger] self.is_resident(k) ==> self.is_known(k),
            self.capacity() <= usize::MAX as int,
    {
        vstd::std_specs::vec::axiom_spec_len(&self.slot);
    }

    /// Whether the bucket at `key` is dirty.
    pub fn dirty_at(&self, key: usize) -> (r: bool)
        requires
            self.wf(),
        ensures
            r == self.is_dirty(key as int),
    {
        key < self.dirty.len() && self.dirty[key]
    }
}

} // verus!
