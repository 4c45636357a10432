//! The lazy per-thread container.
//!
//! A `ThreadLocal` pairs a key of the backend with an initialiser
//! capability. Each thread's value is created lazily, on that thread's
//! first access, and lives in the backend's table until the container is
//! torn down; values are never destroyed merely because their thread
//! exited. A container built by `const_new` stores only a copyable seed
//! and defers even key creation to the first access, so that no backend
//! call is needed at construction.

use crate::keys::KeyTable;
use crate::keys::KeyTableModel;
use vstd::prelude::*;

verus! {

/// The capability that manufactures a per-thread value. It is invoked at
/// most once per (container, thread) pair; what it returns is pinned by
/// `spec_init`, so a container's contracts can name the value a fresh
/// thread will see.
pub trait ThreadLocalInitialiser<T>: Sized {
    /// The value this initialiser produces.
    spec fn spec_init(&self) -> T;

    /// Produce the value.
    fn init(&self) -> (r: T)
        ensures
            r == self.spec_init(),
    ;
}

/// The seeded initialiser of const mode: a copyable seed value, cloned
/// into each thread's slot. It stands where an eager container boxes a
/// general initialiser, so exactly one of the two is ever stored.
pub struct SeedInit<T> {
    pub seed: T,
}

impl<T: Copy> ThreadLocalInitialiser<T> for SeedInit<T> {
    open spec fn spec_init(&self) -> T {
        self.seed
    }

    fn init(&self) -> (r: T) {
        self.seed
    }
}

/// One lazy per-thread container: a key of the backend, the one-time
/// key-created flag, and the owned initialiser capability.
pub struct ThreadLocal<T, I> {
    pub key_created: bool,
    pub key: usize,
    pub initialiser: I,
    pub value_type: core::marker::PhantomData<T>,
}

impl<T, I: ThreadLocalInitialiser<T>> ThreadLocal<T, I> {
    /// The container after the ensure-key step of an access: a container
    /// whose key exists is left alone; otherwise the key the backend will
    /// create is recorded and the flag set, exactly once.
    pub open spec fn after_key(self, m: KeyTableModel<T>, thread: u64) -> ThreadLocal<T, I> {
        if self.key_created {
            self
        } else {
            ThreadLocal { key_created: true, key: m.created_key(thread), ..self }
        }
    }

    /// The table after the ensure-key step of an access.
    pub open spec fn table_after_key(self, m: KeyTableModel<T>, thread: u64) -> KeyTableModel<T> {
        if self.key_created {
            m
        } else {
            m.after_create(thread)
        }
    }

    /// The key an access addresses.
    pub open spec fn access_key(self, m: KeyTableModel<T>, thread: u64) -> usize {
        if self.key_created {
            self.key
        } else {
            m.created_key(thread)
        }
    }

    /// The value an access by `thread` returns: the value already stored
    /// for this thread, or the initialiser's product for a first access.
    pub open spec fn access_value(self, m: KeyTableModel<T>, thread: u64) -> T {
        let k = self.access_key(m, thread);
        let m1 = self.table_after_key(m, thread);
        if m1.has_value(thread, k) {
            m1.value_at(thread, k)
        } else {
            self.initialiser.spec_init()
        }
    }

    /// The table after an access by `thread` that leaves `v` in the
    /// thread's slot. For a read access `v` is `access_value`; for a
    /// mutable access it is whatever the caller wrote through the
    /// returned borrow.
    pub open spec fn table_after_access(self, m: KeyTableModel<T>, thread: u64, v: T) -> KeyTableModel<T> {
        self.table_after_key(m, thread).after_store(thread, self.access_key(m, thread), v)
    }

    /// Whether an access by `thread` can run: the key either exists
    /// already or can still be created. The only failure the protocol
    /// knows is fatal key-space exhaustion, which this excludes.
    pub open spec fn can_access(self, m: KeyTableModel<T>, thread: u64) -> bool {
        self.key_created || m.can_create(thread)
    }

    /// Build a container that creates its key at once and initialises the
    /// constructing thread's value right away; the initialiser is kept
    /// for the other threads.
    pub fn new(init: I, table: &mut KeyTable<T>, thread: u64) -> (r: Self)
        requires
            old(table).wf(),
            old(table)@.can_create(thread),
        ensures
            final(table).wf(),
            r.key_created,
            r.key == old(table)@.created_key(thread),
            r.initialiser == init,
            final(table)@ == old(table)@.after_create(thread).after_store(
                thread,
                r.key,
                init.spec_init(),
            ),
    {
        let key: usize = table.create_key(thread);
        let v = init.init();
        table.set_key(thread, key, v);
        ThreadLocal { key_created: true, key, initialiser: init, value_type: core::marker::PhantomData }
    }

    /// Ensure the key exists: the one-time false-to-true transition of
    /// the key-created flag. Only a container still pending performs the
    /// backend's key creation; on a container whose key exists this
    /// changes nothing, so the backend call happens at most once over the
    /// container's lifetime.
    pub fn check_init(&mut self, table: &mut KeyTable<T>, thread: u64)
        requires
            old(table).wf(),
            old(self).can_access(old(table)@, thread),
        ensures
            final(table).wf(),
            *final(self) == old(self).after_key(old(table)@, thread),
            final(table)@ == old(self).table_after_key(old(table)@, thread),
            final(self).key_created,
    {
        if !self.key_created {
            self.key_created = true;
            self.key = table.create_key(thread);
        }
    }

    /// Allocate and initialise this thread's value and store it through
    /// the backend.
    fn init_value(&self, table: &mut KeyTable<T>, thread: u64)
        requires
            old(table).wf(),
        ensures
            final(table).wf(),
            final(table)@ == old(table)@.after_store(thread, self.key, self.initialiser.spec_init()),
    {
        let v = self.initialiser.init();
        table.set_key(thread, self.key, v);
    }

    /// Borrow the calling thread's value, creating key and value lazily
    /// on first access. A slot that already holds a value is returned as
    /// it is, so repeated accesses from one thread see one stable value,
    /// never a re-initialised one.
    pub fn get<'a>(&mut self, table: &'a mut KeyTable<T>, thread: u64) -> (r: &'a T)
        requires
            old(table).wf(),
            old(self).can_access(old(table)@, thread),
        ensures
            final(table).wf(),
            *r == old(self).access_value(old(table)@, thread),
            final(table)@ == old(self).table_after_access(old(table)@, thread, *r),
            *final(self) == old(self).after_key(old(table)@, thread),
    {
        self.check_init(table, thread);
        let present = table.get_key(thread, self.key);
        if !present {
            self.init_value(table, thread);
        }
        proof {
            let m1 = old(self).table_after_key(old(table)@, thread);
            let k = old(self).access_key(old(table)@, thread);
            assert(table@.slots =~= m1.slots.insert(
                (thread, k),
                Some(old(self).access_value(old(table)@, thread)),
            ));
            assert(table@ =~= old(self).table_after_access(
                old(table)@,
                thread,
                old(self).access_value(old(table)@, thread),
            ));
        }
        table.value_ref(thread, self.key)
    }

    /// Borrow the calling thread's value mutably, creating key and value
    /// lazily on first access exactly as `get` does. What the caller
    /// writes through the borrow is what this thread's slot — and no
    /// other thread's — then holds.
    pub fn get_mut<'a>(&mut self, table: &'a mut KeyTable<T>, thread: u64) -> (r: &'a mut T)
        requires
            old(table).wf(),
            old(self).can_access(old(table)@, thread),
        ensures
            final(table).wf(),
            *r == old(self).access_value(old(table)@, thread),
            final(table)@ == old(self).table_after_access(old(table)@, thread, *final(r)),
            *final(self) == old(self).after_key(old(table)@, thread),
    {
        self.check_init(table, thread);
        let present = table.get_key(thread, self.key);
        if !present {
            self.init_value(table, thread);
        }
        proof {
            let m1 = old(self).table_after_key(old(table)@, thread);
            let k = old(self).access_key(old(table)@, thread);
            assert(table@.slots =~= m1.slots.insert(
                (thread, k),
                Some(old(self).access_value(old(table)@, thread)),
            ));
        }
        table.value_mut(thread, self.key)
    }

    /// Tear the container down: the owned initialiser (or seed) is
    /// destroyed with it, exactly once, and the key is deleted — every
    /// thread's remaining value under it is destroyed and its slot
    /// cleared before the key identifier returns to the recycle pool, so
    /// a container built later over a recycled key observes no stale
    /// state.
    pub fn teardown(self, table: &mut KeyTable<T>)
        requires
            old(table).wf(),
        ensures
            final(table).wf(),
            final(table)@.slots.dom() == old(table)@.slots.dom(),
            forall|p: (u64, usize)| #[trigger]
                old(table)@.slots.dom().contains(p) ==> final(table)@.slots[p] == (if p.1
                    == self.key {
                    None::<T>
                } else {
                    old(table)@.slots[p]
                }),
            final(table)@.recycle == old(table)@.recycle.push(self.key),
            final(table)@.key_count == old(table)@.key_count,
    {
        table.delete_key(self.key);
    }
}

/// Law: per-thread values are identity-stable. After an access by a
/// thread — which leaves that access's value in the thread's slot — a
/// second access by the same thread returns the very same value, and a
/// second read access leaves the table exactly as it was: the value is
/// never re-initialised.
pub proof fn lemma_access_stable<T, I: ThreadLocalInitialiser<T>>(
    c: ThreadLocal<T, I>,
    m: KeyTableModel<T>,
    thread: u64,
)
    ensures
        ({
            let c1 = c.after_key(m, thread);
            let v = c.access_value(m, thread);
            let m1 = c.table_after_access(m, thread, v);
            &&& c1.access_value(m1, thread) == v
            &&& c1.table_after_access(m1, thread, v) == m1
        }),
{
    let c1 = c.after_key(m, thread);
    let v = c.access_value(m, thread);
    let m1 = c.table_after_access(m, thread, v);
    let k = c.access_key(m, thread);
    assert(m1.slots.contains_key((thread, k)));
    assert(m1.slots[(thread, k)] == Some(v));
    assert(c1.access_value(m1, thread) == v);
    assert(c1.table_after_access(m1, thread, v).slots =~= m1.slots);
    assert(c1.table_after_access(m1, thread, v) =~= m1);
}

/// Law: accesses are thread-scoped. Whatever one thread's access writes,
/// every slot of a different thread keeps both its presence and its
/// value: a mutation is never visible to another thread.
pub proof fn lemma_thread_isolation<T, I: ThreadLocalInitialiser<T>>(
    c: ThreadLocal<T, I>,
    m: KeyTableModel<T>,
    t1: u64,
    v: T,
    t2: u64,
    k2: usize,
)
    requires
        t1 != t2,
    ensures
        c.table_after_access(m, t1, v).slots.contains_key((t2, k2)) == m.slots.contains_key(
            (t2, k2),
        ),
        m.slots.contains_key((t2, k2)) ==> c.table_after_access(m, t1, v).slots[(t2, k2)]
            == m.slots[(t2, k2)],
{
}

/// Law: a thread whose slot is empty is answered by the initialiser's
/// own product — each thread gets its independently initialised copy,
/// never another thread's value, and after a teardown swept the key no
/// stale value can answer a later access.
pub proof fn lemma_empty_slot_initialises<T, I: ThreadLocalInitialiser<T>>(
    c: ThreadLocal<T, I>,
    m: KeyTableModel<T>,
    thread: u64,
)
    requires
        c.key_created,
        !m.has_value(thread, c.key),
    ensures
        c.access_value(m, thread) == c.initialiser.spec_init(),
{
}

/// Law: for a container still pending its key — a const-seeded one before
/// any access — a first access that materialises a fresh key is answered
/// by the initialiser's product: with a seed `s`, every thread's first
/// access yields exactly `s`.
pub proof fn lemma_first_access_initialises<T, I: ThreadLocalInitialiser<T>>(
    c: ThreadLocal<T, I>,
    m: KeyTableModel<T>,
    thread: u64,
)
    requires
        !c.key_created,
        m.fresh_ok(thread),
    ensures
        c.access_value(m, thread) == c.initialiser.spec_init(),
{
    let k = c.access_key(m, thread);
    let m1 = c.table_after_key(m, thread);
    assert(m1.slots[(thread, k)] is None);
}

/// Law: the backend's key creation runs at most once per container. Once
/// the key-created flag stands — as it does after any access — the
/// ensure-key step of every later access, from any thread, is the
/// identity on both container and table: no second key is ever created.
pub proof fn lemma_key_created_once<T, I: ThreadLocalInitialiser<T>>(
    c: ThreadLocal<T, I>,
    m: KeyTableModel<T>,
    thread: u64,
)
    requires
        c.key_created,
    ensures
        c.after_key(m, thread) == c,
        c.table_after_key(m, thread) == m,
        c.access_key(m, thread) == c.key,
{
}

impl<T: Copy> ThreadLocal<T, SeedInit<T>> {
    /// Build a container from a copyable seed alone. No backend call is
    /// made and no key exists yet: the key is materialised once, by the
    /// first access from any thread.
    pub fn const_new(value: T) -> (r: Self)
        ensures
            !r.key_created,
            r.key == 0usize,
            r.initialiser.spec_init() == value,
    {
        ThreadLocal {
            key_created: false,
            key: 0,
            initialiser: SeedInit { seed: value },
            value_type: core::marker::PhantomData,
        }
    }
}

} // verus!
