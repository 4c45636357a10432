//! Emulated thread-local key backend.
//!
//! Hosts without a native thread-specific-storage facility address their
//! per-thread slots through a process-wide table of rows keyed by
//! (thread identity, key identifier). The table is kept sorted by that
//! pair, so every operation scopes itself to the calling thread by
//! ordered search. A pool of recyclable key identifiers and a
//! monotonically increasing counter back key creation.

use vstd::prelude::*;

verus! {

/// One row of the key table: the slot a given thread holds under a given
/// key. `value` is `None` while the slot is empty — a placeholder row
/// inserted by a first lookup, or a row already swept by `delete_key`.
pub struct KeyEntry<T> {
    pub thread_id: u64,
    pub key: usize,
    pub value: Option<T>,
}

impl<T> KeyEntry<T> {
    /// The pair the table is keyed and ordered by.
    pub open spec fn pos(self) -> (u64, usize) {
        (self.thread_id, self.key)
    }
}

/// Rows are equal exactly when they carry the same (thread, key) pair:
/// the pair is the table's natural key, so slot contents play no part.
impl<T> PartialEq for KeyEntry<T> {
    fn eq(&self, other: &KeyEntry<T>) -> (r: bool) {
        self.thread_id == other.thread_id && self.key == other.key
    }
}

impl<T> Eq for KeyEntry<T> {

}

impl<T> vstd::std_specs::cmp::PartialEqSpecImpl for KeyEntry<T> {
    open spec fn obeys_eq_spec() -> bool {
        true
    }

    open spec fn eq_spec(&self, other: &KeyEntry<T>) -> bool {
        self.pos() == other.pos()
    }
}

/// Rows order by thread identity first, then by key identifier — the
/// order the table is kept sorted in.
impl<T> PartialOrd for KeyEntry<T> {
    fn partial_cmp(&self, other: &KeyEntry<T>) -> (r: Option<core::cmp::Ordering>) {
        if self.thread_id == other.thread_id {
            if self.key == other.key {
                Some(core::cmp::Ordering::Equal)
            } else if self.key < other.key {
                Some(core::cmp::Ordering::Less)
            } else {
                Some(core::cmp::Ordering::Greater)
            }
        } else if self.thread_id < other.thread_id {
            Some(core::cmp::Ordering::Less)
        } else {
            Some(core::cmp::Ordering::Greater)
        }
    }
}

impl<T> vstd::std_specs::cmp::PartialOrdSpecImpl for KeyEntry<T> {
    open spec fn obeys_partial_cmp_spec() -> bool {
        true
    }

    open spec fn partial_cmp_spec(&self, other: &KeyEntry<T>) -> Option<core::cmp::Ordering> {
        if self.pos() == other.pos() {
            Some(core::cmp::Ordering::Equal)
        } else if pos_lt(self.pos(), other.pos()) {
            Some(core::cmp::Ordering::Less)
        } else {
            Some(core::cmp::Ordering::Greater)
        }
    }
}

/// Strict order of rows: by thread identity first, then by key identifier.
pub open spec fn pos_lt(a: (u64, usize), b: (u64, usize)) -> bool {
    a.0 < b.0 || (a.0 == b.0 && a.1 < b.1)
}

/// A row sequence strictly sorted by `pos`; strictness makes each
/// (thread, key) pair occur at most once.
pub open spec fn sorted<T>(s: Seq<KeyEntry<T>>) -> bool {
    forall|i: int, j: int|
        0 <= i < j < s.len() ==> pos_lt(#[trigger] s[i].pos(), #[trigger] s[j].pos())
}

/// Whether some row of `s` carries the pair `p`.
pub open spec fn has_row<T>(s: Seq<KeyEntry<T>>, p: (u64, usize)) -> bool {
    exists|i: int| 0 <= i < s.len() && (#[trigger] s[i].pos()) == p
}

/// The index of the row carrying `p` (meaningful when `has_row`).
pub open spec fn row_index<T>(s: Seq<KeyEntry<T>>, p: (u64, usize)) -> int {
    choose|i: int| 0 <= i < s.len() && (#[trigger] s[i].pos()) == p
}

/// The table's rows as a map from (thread identity, key identifier) to
/// slot contents. A pair absent from the map has no row at all; a pair
/// mapped to `None` has an empty slot.
pub open spec fn slots_of<T>(s: Seq<KeyEntry<T>>) -> Map<(u64, usize), Option<T>> {
    Map::new(|p: (u64, usize)| has_row(s, p), |p: (u64, usize)| s[row_index(s, p)].value)
}

/// Abstract state of a key table: the slot map, the pool of recyclable
/// key identifiers (a stack), and the key counter.
#[verifier::ext_equal]
pub struct KeyTableModel<T> {
    pub slots: Map<(u64, usize), Option<T>>,
    pub recycle: Seq<usize>,
    pub key_count: usize,
}

impl<T> KeyTableModel<T> {
    /// The pair `(thread, key)` has a row whose slot holds a value.
    pub open spec fn has_value(self, thread: u64, key: usize) -> bool {
        self.slots.contains_key((thread, key)) && self.slots[(thread, key)] is Some
    }

    /// The value stored for `(thread, key)` (meaningful when `has_value`).
    pub open spec fn value_at(self, thread: u64, key: usize) -> T {
        self.slots[(thread, key)].unwrap()
    }

    /// The fresh candidate is free for this thread, so key creation takes
    /// the insertion branch rather than the recycle pool.
    pub open spec fn fresh_ok(self, thread: u64) -> bool {
        !self.slots.contains_key((thread, self.key_count))
    }

    /// Key creation succeeds: either the fresh candidate is free, or the
    /// recycle pool can supply a key. When neither holds the protocol
    /// declares fatal key-space exhaustion, so `create_key` excludes that
    /// state.
    pub open spec fn can_create(self, thread: u64) -> bool {
        self.fresh_ok(thread) || self.recycle.len() > 0
    }

    /// The counter after one creation attempt; it wraps at the top rather
    /// than stopping.
    pub open spec fn bumped(self) -> usize {
        if self.key_count == usize::MAX {
            0
        } else {
            (self.key_count + 1) as usize
        }
    }

    /// The key identifier `create_key` hands out.
    pub open spec fn created_key(self, thread: u64) -> usize {
        if self.fresh_ok(thread) {
            self.key_count
        } else {
            self.recycle.last()
        }
    }

    /// The table state after `create_key` by `thread`: a fresh key gets a
    /// placeholder row for the creating thread; a recycled key leaves the
    /// rows untouched. The counter advances either way.
    pub open spec fn after_create(self, thread: u64) -> KeyTableModel<T> {
        if self.fresh_ok(thread) {
            KeyTableModel {
                slots: self.slots.insert((thread, self.key_count), None),
                recycle: self.recycle,
                key_count: self.bumped(),
            }
        } else {
            KeyTableModel {
                slots: self.slots,
                recycle: self.recycle.drop_last(),
                key_count: self.bumped(),
            }
        }
    }

    /// The table state after a lookup of `(thread, key)`: a missing row is
    /// lazily inserted as an empty placeholder.
    pub open spec fn after_probe(self, thread: u64, key: usize) -> KeyTableModel<T> {
        if self.slots.contains_key((thread, key)) {
            self
        } else {
            KeyTableModel {
                slots: self.slots.insert((thread, key), None),
                recycle: self.recycle,
                key_count: self.key_count,
            }
        }
    }

    /// The table state after storing `value` for `(thread, key)`.
    pub open spec fn after_store(self, thread: u64, key: usize, value: T) -> KeyTableModel<T> {
        KeyTableModel {
            slots: self.slots.insert((thread, key), Some(value)),
            recycle: self.recycle,
            key_count: self.key_count,
        }
    }
}

/// Borrow the value inside an option known to hold one; what the caller
/// writes through the borrow is what the option then holds.
fn option_as_mut<'a, T>(o: &'a mut Option<T>) -> (r: &'a mut T)
    requires
        *old(o) is Some,
    ensures
        *r == old(o).unwrap(),
        *final(o) == Some(*final(r)),
{
    match o {
        Some(v) => v,
        None => unreached(),
    }
}

/// Two rows carrying the same pair are the same row.
proof fn lemma_row_unique<T>(s: Seq<KeyEntry<T>>, i: int, j: int)
    requires
        sorted(s),
        0 <= i < s.len(),
        0 <= j < s.len(),
        s[i].pos() == s[j].pos(),
    ensures
        i == j,
{
    if i < j {
        assert(pos_lt(s[i].pos(), s[j].pos()));
    }
    if j < i {
        assert(pos_lt(s[j].pos(), s[i].pos()));
    }
}

/// The slot map reads each row back exactly.
proof fn lemma_slots_at<T>(s: Seq<KeyEntry<T>>, i: int)
    requires
        sorted(s),
        0 <= i < s.len(),
    ensures
        slots_of(s).contains_key(s[i].pos()),
        slots_of(s)[s[i].pos()] == s[i].value,
{
    let p = s[i].pos();
    assert(has_row(s, p));
    let j = row_index(s, p);
    assert(0 <= j < s.len() && s[j].pos() == p);
    lemma_row_unique(s, i, j);
}

/// Inserting a row at its sorted position keeps the table sorted and adds
/// exactly that pair to the slot map.
proof fn lemma_insert_row<T>(s: Seq<KeyEntry<T>>, idx: int, e: KeyEntry<T>)
    requires
        sorted(s),
        0 <= idx <= s.len(),
        forall|j: int| 0 <= j < idx ==> pos_lt(#[trigger] s[j].pos(), e.pos()),
        forall|j: int| idx <= j < s.len() ==> pos_lt(e.pos(), #[trigger] s[j].pos()),
    ensures
        sorted(s.insert(idx, e)),
        slots_of(s.insert(idx, e)) == slots_of(s).insert(e.pos(), e.value),
{
    let s2 = s.insert(idx, e);
    assert forall|i: int, j: int| 0 <= i < j < s2.len() implies pos_lt(
        #[trigger] s2[i].pos(),
        #[trigger] s2[j].pos(),
    ) by {
        if i < idx && j > idx {
            assert(pos_lt(s[i].pos(), e.pos()));
            assert(pos_lt(e.pos(), s[j - 1].pos()));
        }
    }
    assert forall|p: (u64, usize)| #[trigger] has_row(s2, p) implies has_row(s, p) || p == e.pos() by {
        let i = choose|i: int| 0 <= i < s2.len() && (#[trigger] s2[i].pos()) == p;
        if i < idx {
            assert(s[i].pos() == p);
        } else if i > idx {
            assert(s[i - 1].pos() == p);
        }
    }
    assert forall|p: (u64, usize)| #[trigger] has_row(s, p) implies has_row(s2, p) by {
        let i = choose|i: int| 0 <= i < s.len() && (#[trigger] s[i].pos()) == p;
        if i < idx {
            assert(s2[i].pos() == p);
        } else {
            assert(s2[i + 1].pos() == p);
        }
    }
    assert(s2[idx].pos() == e.pos());
    assert(has_row(s2, e.pos()));
    assert forall|p: (u64, usize)| #[trigger] slots_of(s2).contains_key(p) implies slots_of(
        s2,
    )[p] == slots_of(s).insert(e.pos(), e.value)[p] by {
        let i = row_index(s2, p);
        assert(0 <= i < s2.len() && s2[i].pos() == p);
        if p == e.pos() {
            lemma_row_unique(s2, i, idx);
            assert(slots_of(s2)[p] == e.value);
        } else {
            if i < idx {
                lemma_slots_at(s, i);
                lemma_row_unique(s2, i, row_index(s2, s2[i].pos()));
            } else {
                assert(s[i - 1].pos() == p);
                lemma_slots_at(s, i - 1);
            }
            assert(slots_of(s2)[p] == slots_of(s)[p]);
        }
    }
    assert(slots_of(s2) =~= slots_of(s).insert(e.pos(), e.value));
}

/// Overwriting the slot of an existing row keeps the table sorted and
/// updates exactly that pair in the slot map.
proof fn lemma_update_row<T>(s: Seq<KeyEntry<T>>, idx: int, e: KeyEntry<T>)
    requires
        sorted(s),
        0 <= idx < s.len(),
        e.pos() == s[idx].pos(),
    ensures
        sorted(s.update(idx, e)),
        slots_of(s.update(idx, e)) == slots_of(s).insert(e.pos(), e.value),
{
    let s2 = s.update(idx, e);
    assert forall|i: int, j: int| 0 <= i < j < s2.len() implies pos_lt(
        #[trigger] s2[i].pos(),
        #[trigger] s2[j].pos(),
    ) by {
        assert(s2[i].pos() == s[i].pos());
        assert(s2[j].pos() == s[j].pos());
    }
    assert forall|p: (u64, usize)| #[trigger] has_row(s2, p) == has_row(s, p) by {
        if has_row(s2, p) {
            let i = choose|i: int| 0 <= i < s2.len() && (#[trigger] s2[i].pos()) == p;
            assert(s[i].pos() == p);
        }
        if has_row(s, p) {
            let i = choose|i: int| 0 <= i < s.len() && (#[trigger] s[i].pos()) == p;
            assert(s2[i].pos() == p);
        }
    }
    assert forall|p: (u64, usize)| #[trigger] slots_of(s2).contains_key(p) implies slots_of(
        s2,
    )[p] == slots_of(s).insert(e.pos(), e.value)[p] by {
        let i = row_index(s2, p);
        assert(0 <= i < s2.len() && s2[i].pos() == p);
        if p == e.pos() {
            lemma_row_unique(s2, i, idx);
            assert(slots_of(s2)[p] == e.value);
        } else {
            assert(i != idx);
            assert(s[i].pos() == p);
            lemma_slots_at(s, i);
            assert(slots_of(s2)[p] == slots_of(s)[p]);
        }
    }
    assert(slots_of(s2) =~= slots_of(s).insert(e.pos(), e.value));
}

/// A pair that ordered search rejects has no row.
proof fn lemma_absent<T>(s: Seq<KeyEntry<T>>, p: (u64, usize), idx: int)
    requires
        0 <= idx <= s.len(),
        forall|j: int| 0 <= j < idx ==> pos_lt(#[trigger] s[j].pos(), p),
        forall|j: int| idx <= j < s.len() ==> pos_lt(p, #[trigger] s[j].pos()),
    ensures
        !has_row(s, p),
        !slots_of(s).contains_key(p),
{
    if has_row(s, p) {
        let i = choose|i: int| 0 <= i < s.len() && (#[trigger] s[i].pos()) == p;
        assert(pos_lt(p, p));
    }
}

/// Law: key recycling is leak-free and reusable. Deleting a key removes
/// no row and adds none — the row set is unchanged — and pushes the key
/// onto the pool; a creation that draws on the pool hands back exactly
/// the most recently recycled key and touches no row, so bounded
/// create/delete cycles neither grow the table beyond the rows already
/// placed nor consume fresh counter values for recycled keys.
pub proof fn lemma_recycled_key_reused<T>(m: KeyTableModel<T>, thread: u64)
    requires
        !m.fresh_ok(thread),
        m.recycle.len() > 0,
    ensures
        m.created_key(thread) == m.recycle.last(),
        m.after_create(thread).slots == m.slots,
        m.after_create(thread).recycle == m.recycle.drop_last(),
{
}

/// Emulated key backend: an ordered table of per-thread slots, the pool
/// of recyclable keys, and the key counter. One such table stands for the
/// process-wide state the backend keeps; it starts empty and is cleaned
/// up row by row through each container's own `delete_key` call.
pub struct KeyTable<T> {
    entries: Vec<KeyEntry<T>>,
    recycle: Vec<usize>,
    key_count: usize,
}

impl<T> View for KeyTable<T> {
    type V = KeyTableModel<T>;

    closed spec fn view(&self) -> KeyTableModel<T> {
        KeyTableModel {
            slots: slots_of(self.entries@),
            recycle: self.recycle@,
            key_count: self.key_count,
        }
    }
}

impl<T> KeyTable<T> {
    /// The table's rows are strictly sorted by (thread identity, key).
    pub closed spec fn wf(self) -> bool {
        sorted(self.entries@)
    }

    /// An empty backend: no rows, no recyclable keys, counter at zero.
    pub fn new() -> (t: Self)
        ensures
            t.wf(),
            t@.slots == Map::<(u64, usize), Option<T>>::empty(),
            t@.recycle == Seq::<usize>::empty(),
            t@.key_count == 0,
    {
        let t = KeyTable { entries: Vec::new(), recycle: Vec::new(), key_count: 0 };
        proof {
            assert(t@.slots =~= Map::<(u64, usize), Option<T>>::empty());
        }
        t
    }

    /// Ordered search for the row of `(thread, key)`: its index, or the
    /// index at which such a row would have to be inserted.
    fn search(&self, thread: u64, key: usize) -> (r: Result<usize, usize>)
        requires
            self.wf(),
        ensures
            match r {
                Ok(i) => 0 <= i < self.entries@.len() && self.entries@[i as int].pos() == (
                thread,
                key,
                ),
                Err(i) => {
                    &&& i <= self.entries@.len()
                    &&& forall|j: int|
                        0 <= j < i ==> pos_lt(#[trigger] self.entries@[j].pos(), (thread, key))
                    &&& forall|j: int|
                        i <= j < self.entries@.len() ==> pos_lt(
                            (thread, key),
                            #[trigger] self.entries@[j].pos(),
                        )
                },
            },
    {
        let mut lo: usize = 0;
        let mut hi: usize = self.entries.len();
        while lo < hi
            invariant
                lo <= hi <= self.entries@.len(),
                self.wf(),
                forall|j: int| 0 <= j < lo ==> pos_lt(#[trigger] self.entries@[j].pos(), (thread, key)),
                forall|j: int|
                    hi <= j < self.entries@.len() ==> pos_lt(
                        (thread, key),
                        #[trigger] self.entries@[j].pos(),
                    ),
            decreases hi - lo,
        {
            let mid = lo + (hi - lo) / 2;
            let e = &self.entries[mid];
            if e.thread_id < thread || (e.thread_id == thread && e.key < key) {
                proof {
                    assert forall|j: int| 0 <= j < mid + 1 implies pos_lt(
                        #[trigger] self.entries@[j].pos(),
                        (thread, key),
                    ) by {
                        if j < mid {
                            assert(pos_lt(self.entries@[j].pos(), self.entries@[mid as int].pos()));
                        }
                    }
                }
                lo = mid + 1;
            } else if e.thread_id == thread && e.key == key {
                return Ok(mid);
            } else {
                proof {
                    assert(pos_lt((thread, key), self.entries@[mid as int].pos()));
                    assert forall|j: int| mid <= j < self.entries@.len() implies pos_lt(
                        (thread, key),
                        #[trigger] self.entries@[j].pos(),
                    ) by {
                        if mid < j {
                            assert(pos_lt(self.entries@[mid as int].pos(), self.entries@[j].pos()));
                        }
                    }
                }
                hi = mid;
            }
        }
        Err(lo)
    }

    /// Create a key for the calling thread. The counter value is proposed
    /// as a fresh key and a placeholder row is inserted for it; if that
    /// exact (thread, key) row already exists — the counter has wrapped
    /// around — the key is drawn from the recycle pool instead. A state in
    /// which both fail is fatal key-space exhaustion, which the
    /// precondition excludes.
    pub fn create_key(&mut self, thread: u64) -> (key: usize)
        requires
            old(self).wf(),
            old(self)@.can_create(thread),
        ensures
            final(self).wf(),
            key == old(self)@.created_key(thread),
            final(self)@ == old(self)@.after_create(thread),
    {
        let candidate: usize = self.key_count;
        self.key_count = if self.key_count == usize::MAX {
            0
        } else {
            self.key_count + 1
        };
        match self.search(thread, candidate) {
            Err(i) => {
                let entry = KeyEntry { thread_id: thread, key: candidate, value: None };
                proof {
                    lemma_absent(self.entries@, (thread, candidate), i as int);
                    lemma_insert_row(self.entries@, i as int, entry);
                }
                self.entries.insert(i, entry);
                candidate
            },
            Ok(i) => {
                proof {
                    lemma_slots_at(self.entries@, i as int);
                }
                let key: usize = self.recycle.pop().unwrap();
                key
            },
        }
    }

    /// Look the calling thread's slot up under `key`. A missing row is
    /// inserted as an empty placeholder, so the table is lazily populated
    /// per thread on first lookup as well as on creation. Returns whether
    /// the slot holds a value.
    pub fn get_key(&mut self, thread: u64, key: usize) -> (present: bool)
        requires
            old(self).wf(),
        ensures
            final(self).wf(),
            present == old(self)@.has_value(thread, key),
            final(self)@ == old(self)@.after_probe(thread, key),
    {
        match self.search(thread, key) {
            Ok(i) => {
                proof {
                    lemma_slots_at(self.entries@, i as int);
                }
                self.entries[i].value.is_some()
            },
            Err(i) => {
                let entry = KeyEntry { thread_id: thread, key, value: None };
                proof {
                    lemma_absent(self.entries@, (thread, key), i as int);
                    lemma_insert_row(self.entries@, i as int, entry);
                }
                self.entries.insert(i, entry);
                false
            },
        }
    }

    /// Store `value` in the calling thread's slot under `key`, inserting
    /// the row if it is absent.
    pub fn set_key(&mut self, thread: u64, key: usize, value: T)
        requires
            old(self).wf(),
        ensures
            final(self).wf(),
            final(self)@ == old(self)@.after_store(thread, key, value),
    {
        match self.search(thread, key) {
            Ok(i) => {
                let ghost s0 = self.entries@;
                let e = &mut self.entries[i];
                e.value = Some(value);
                proof {
                    lemma_update_row(s0, i as int, *final(e));
                }
            },
            Err(i) => {
                let entry = KeyEntry { thread_id: thread, key, value: Some(value) };
                proof {
                    lemma_insert_row(self.entries@, i as int, entry);
                }
                self.entries.insert(i, entry);
            },
        }
    }

    /// Borrow the calling thread's stored value under `key`.
    pub fn value_ref<'a>(&'a self, thread: u64, key: usize) -> (r: &'a T)
        requires
            self.wf(),
            self@.has_value(thread, key),
        ensures
            *r == self@.value_at(thread, key),
    {
        match self.search(thread, key) {
            Ok(i) => {
                proof {
                    lemma_slots_at(self.entries@, i as int);
                }
                match &self.entries[i].value {
                    Some(v) => v,
                    None => unreached(),
                }
            },
            Err(i) => {
                proof {
                    lemma_absent(self.entries@, (thread, key), i as int);
                }
                unreached()
            },
        }
    }

    /// Borrow the calling thread's stored value under `key` mutably; what
    /// the caller writes through the borrow is what the slot then holds.
    pub fn value_mut<'a>(&'a mut self, thread: u64, key: usize) -> (r: &'a mut T)
        requires
            old(self).wf(),
            old(self)@.has_value(thread, key),
        ensures
            final(self).wf(),
            *r == old(self)@.value_at(thread, key),
            final(self)@ == old(self)@.after_store(thread, key, *final(r)),
    {
        match self.search(thread, key) {
            Ok(i) => {
                let ghost s0 = self.entries@;
                proof {
                    lemma_slots_at(s0, i as int);
                    assert forall|e2: KeyEntry<T>| e2.pos() == s0[i as int].pos() implies sorted(
                        s0.update(i as int, e2),
                    ) && #[trigger] slots_of(s0.update(i as int, e2)) == slots_of(s0).insert(
                        e2.pos(),
                        e2.value,
                    ) by {
                        lemma_update_row(s0, i as int, e2);
                    }
                }
                let e = &mut self.entries[i];
                option_as_mut(&mut e.value)
            },
            Err(i) => {
                proof {
                    lemma_absent(self.entries@, (thread, key), i as int);
                }
                unreached()
            },
        }
    }

    /// Delete `key`: every thread's row under it has its value destroyed
    /// and its slot cleared — so no destructor can run twice — and the key
    /// identifier is returned to the recycle pool. Rows themselves stay;
    /// a key never created is a no-op sweep and only feeds the pool.
    pub fn delete_key(&mut self, key: usize)
        requires
            old(self).wf(),
        ensures
            final(self).wf(),
            final(self)@.slots.dom() == old(self)@.slots.dom(),
            forall|p: (u64, usize)| #[trigger]
                old(self)@.slots.dom().contains(p) ==> final(self)@.slots[p] == (if p.1 == key {
                    None::<T>
                } else {
                    old(self)@.slots[p]
                }),
            final(self)@.recycle == old(self)@.recycle.push(key),
            final(self)@.key_count == old(self)@.key_count,
    {
        let ghost s0 = self.entries@;
        let n: usize = self.entries.len();
        let mut idx: usize = 0;
        while idx < n
            invariant
                idx <= n,
                n == self.entries@.len(),
                s0.len() == n,
                forall|j: int| 0 <= j < n ==> (#[trigger] self.entries@[j].pos()) == s0[j].pos(),
                forall|j: int|
                    0 <= j < idx ==> (#[trigger] self.entries@[j].value) == (if s0[j].key == key {
                        None::<T>
                    } else {
                        s0[j].value
                    }),
                forall|j: int| idx <= j < n ==> (#[trigger] self.entries@[j]) == s0[j],
                self.recycle@ == old(self).recycle@,
                self.key_count == old(self).key_count,
                sorted(s0),
            decreases n - idx,
        {
            if self.entries[idx].key == key {
                let e = &mut self.entries[idx];
                e.value = None;
            }
            idx += 1;
        }
        self.recycle.push(key);
        proof {
            let s2 = self.entries@;
            assert forall|i: int, j: int| 0 <= i < j < s2.len() implies pos_lt(
                #[trigger] s2[i].pos(),
                #[trigger] s2[j].pos(),
            ) by {
                assert(s2[i].pos() == s0[i].pos());
                assert(s2[j].pos() == s0[j].pos());
            }
            assert forall|p: (u64, usize)| #[trigger] has_row(s2, p) == has_row(s0, p) by {
                if has_row(s2, p) {
                    let i = choose|i: int| 0 <= i < s2.len() && (#[trigger] s2[i].pos()) == p;
                    assert(s0[i].pos() == p);
                }
                if has_row(s0, p) {
                    let i = choose|i: int| 0 <= i < s0.len() && (#[trigger] s0[i].pos()) == p;
                    assert(s2[i].pos() == p);
                }
            }
            assert(slots_of(s2).dom() =~= slots_of(s0).dom());
            assert forall|p: (u64, usize)| #[trigger] slots_of(s0).dom().contains(p) implies slots_of(
                s2,
            )[p] == (if p.1 == key {
                None::<T>
            } else {
                slots_of(s0)[p]
            }) by {
                let i = row_index(s2, p);
                assert(0 <= i < s2.len() && s2[i].pos() == p);
                lemma_slots_at(s2, i);
                assert(s0[i].pos() == p);
                lemma_slots_at(s0, i);
                assert(s0[i].key == p.1);
            }
        }
    }
}

} // verus!
