//! The repository coordinator: the planned, finished and canceled stores
//! and the live-ID pool, owned as one aggregate behind a single exclusive
//! lock.
//!
//! Every `apply` entry point acquires the lock, hands the named resources to
//! the caller's operation, and releases the lock when the operation returns,
//! so the operation is atomic with respect to every other caller. The set of
//! entry points is exactly the set of resource combinations the use-cases
//! need; multi-resource use-cases receive all their resources in one call
//! and never re-enter the coordinator.

use vstd::prelude::*;
use vstd::rwlock::RwLock;

use crate::store::MemoryPool;
use crate::trie::TriePool;

verus! {

/// The aggregate the coordinator protects: one store per stage, plus the
/// pool of live IDs.
pub struct Data {
    pub planned: MemoryPool,
    pub finished: MemoryPool,
    pub canceled: MemoryPool,
    pub ids: TriePool,
}

impl Data {
    /// Validity of every component.
    pub open spec fn wf(self) -> bool {
        &&& self.planned.wf()
        &&& self.finished.wf()
        &&& self.canceled.wf()
        &&& self.ids.wf()
    }

    /// The aggregate ID discipline: every ID present in the planned store is
    /// live in the pool. Planning establishes it for the new item and
    /// transfer retires the ID of the item that leaves, so both preserve it;
    /// see [`crate::law`].
    pub open spec fn ids_linked(self) -> bool {
        forall|id: u64| #[trigger] self.planned@.dom().contains(id) ==> self.ids.has(id)
    }
}

/// The coordinator. It owns the aggregate exclusively; callers reach the
/// stores only for the span of one `apply` call.
pub struct Repository {
    lock: RwLock<Data, spec_fn(Data) -> bool>,
}

impl Repository {
    /// Validity: the lock admits exactly the valid aggregates.
    pub closed spec fn wf(self) -> bool {
        forall|d: Data| #[trigger] self.lock.inv(d) == d.wf()
    }

    /// Takes ownership of the aggregate.
    pub fn new(data: Data) -> (r: Repository)
        requires
            data.wf(),
        ensures
            r.wf(),
    {
        let r = Repository { lock: RwLock::new(data, Ghost(|d: Data| d.wf())) };
        proof {
            assert forall|d: Data| r.lock.inv(d) == d.wf() by {}
        }
        r
    }

    /// Applies an operation to the planned store alone, atomically.
    pub fn apply_planned<T, F: FnOnce(MemoryPool) -> (MemoryPool, T)>(&self, f: F) -> (r: T)
        requires
            self.wf(),
            forall|s: MemoryPool| s.wf() ==> #[trigger] call_requires(f, (s,)),
            forall|s: MemoryPool, out: (MemoryPool, T)|
                s.wf() && #[trigger] call_ensures(f, (s,), out) ==> out.0.wf(),
        ensures
            exists|s: MemoryPool, out: (MemoryPool, T)|
                s.wf() && #[trigger] call_ensures(f, (s,), out) && out.1 == r,
    {
        let (data, handle) = self.lock.acquire_write();
        let Data { planned, finished, canceled, ids } = data;
        let (planned, t) = f(planned);
        handle.release_write(Data { planned, finished, canceled, ids });
        t
    }

    /// Applies an operation to the finished store alone, atomically.
    pub fn apply_finished<T, F: FnOnce(MemoryPool) -> (MemoryPool, T)>(&self, f: F) -> (r: T)
        requires
            self.wf(),
            forall|s: MemoryPool| s.wf() ==> #[trigger] call_requires(f, (s,)),
            forall|s: MemoryPool, out: (MemoryPool, T)|
                s.wf() && #[trigger] call_ensures(f, (s,), out) ==> out.0.wf(),
        ensures
            exists|s: MemoryPool, out: (MemoryPool, T)|
                s.wf() && #[trigger] call_ensures(f, (s,), out) && out.1 == r,
    {
        let (data, handle) = self.lock.acquire_write();
        let Data { planned, finished, canceled, ids } = data;
        let (finished, t) = f(finished);
        handle.release_write(Data { planned, finished, canceled, ids });
        t
    }

    /// Applies an operation to the canceled store alone, atomically.
    pub fn apply_canceled<T, F: FnOnce(MemoryPool) -> (MemoryPool, T)>(&self, f: F) -> (r: T)
        requires
            self.wf(),
            forall|s: MemoryPool| s.wf() ==> #[trigger] call_requires(f, (s,)),
            forall|s: MemoryPool, out: (MemoryPool, T)|
                s.wf() && #[trigger] call_ensures(f, (s,), out) ==> out.0.wf(),
        ensures
            exists|s: MemoryPool, out: (MemoryPool, T)|
                s.wf() && #[trigger] call_ensures(f, (s,), out) && out.1 == r,
    {
        let (data, handle) = self.lock.acquire_write();
        let Data { planned, finished, canceled, ids } = data;
        let (canceled, t) = f(canceled);
        handle.release_write(Data { planned, finished, canceled, ids });
        t
    }

    /// Applies an operation to the planned store and the ID pool, atomically.
    pub fn apply_planned_ids<T, F: FnOnce(MemoryPool, TriePool) -> (MemoryPool, TriePool, T)>(
        &self,
        f: F,
    ) -> (r: T)
        requires
            self.wf(),
            forall|s: MemoryPool, p: TriePool|
                s.wf() && p.wf() ==> #[trigger] call_requires(f, (s, p)),
            forall|s: MemoryPool, p: TriePool, out: (MemoryPool, TriePool, T)|
                s.wf() && p.wf() && #[trigger] call_ensures(f, (s, p), out) ==> out.0.wf()
                    && out.1.wf(),
        ensures
            exists|s: MemoryPool, p: TriePool, out: (MemoryPool, TriePool, T)|
                s.wf() && p.wf() && #[trigger] call_ensures(f, (s, p), out) && out.2 == r,
    {
        let (data, handle) = self.lock.acquire_write();
        let Data { planned, finished, canceled, ids } = data;
        let (planned, ids, t) = f(planned, ids);
        handle.release_write(Data { planned, finished, canceled, ids });
        t
    }

    /// Applies an operation to all three stores, atomically.
    pub fn apply_planned_finished_canceled<
        T,
        F: FnOnce(MemoryPool, MemoryPool, MemoryPool) -> (MemoryPool, MemoryPool, MemoryPool, T),
    >(&self, f: F) -> (r: T)
        requires
            self.wf(),
            forall|a: MemoryPool, b: MemoryPool, c: MemoryPool|
                a.wf() && b.wf() && c.wf() ==> #[trigger] call_requires(f, (a, b, c)),
            forall|
                a: MemoryPool,
                b: MemoryPool,
                c: MemoryPool,
                out: (MemoryPool, MemoryPool, MemoryPool, T),
            |
                a.wf() && b.wf() && c.wf() && #[trigger] call_ensures(f, (a, b, c), out)
                    ==> out.0.wf() && out.1.wf() && out.2.wf(),
        ensures
            exists|
                a: MemoryPool,
                b: MemoryPool,
                c: MemoryPool,
                out: (MemoryPool, MemoryPool, MemoryPool, T),
            |
                a.wf() && b.wf() && c.wf() && #[trigger] call_ensures(f, (a, b, c), out) && out.3
                    == r,
    {
        let (data, handle) = self.lock.acquire_write();
        let Data { planned, finished, canceled, ids } = data;
        let (planned, finished, canceled, t) = f(planned, finished, canceled);
        handle.release_write(Data { planned, finished, canceled, ids });
        t
    }

    /// Applies an operation to the planned store, the finished store and the
    /// ID pool, atomically; this is the shape of marking an item finished.
    pub fn apply_planned_finished_ids<
        T,
        F: FnOnce(MemoryPool, MemoryPool, TriePool) -> (MemoryPool, MemoryPool, TriePool, T),
    >(&self, f: F) -> (r: T)
        requires
            self.wf(),
            forall|a: MemoryPool, b: MemoryPool, p: TriePool|
                a.wf() && b.wf() && p.wf() ==> #[trigger] call_requires(f, (a, b, p)),
            forall|
                a: MemoryPool,
                b: MemoryPool,
                p: TriePool,
                out: (MemoryPool, MemoryPool, TriePool, T),
            |
                a.wf() && b.wf() && p.wf() && #[trigger] call_ensures(f, (a, b, p), out)
                    ==> out.0.wf() && out.1.wf() && out.2.wf(),
        ensures
            exists|
                a: MemoryPool,
                b: MemoryPool,
                p: TriePool,
                out: (MemoryPool, MemoryPool, TriePool, T),
            |
                a.wf() && b.wf() && p.wf() && #[trigger] call_ensures(f, (a, b, p), out) && out.3
                    == r,
    {
        let (data, handle) = self.lock.acquire_write();
        let Data { planned, finished, canceled, ids } = data;
        let (planned, finished, ids, t) = f(planned, finished, ids);
        handle.release_write(Data { planned, finished, canceled, ids });
        t
    }

    /// Applies an operation to the planned store, the canceled store and the
    /// ID pool, atomically; this is the shape of canceling an item.
    pub fn apply_planned_canceled_ids<
        T,
        F: FnOnce(MemoryPool, MemoryPool, TriePool) -> (MemoryPool, MemoryPool, TriePool, T),
    >(&self, f: F) -> (r: T)
        requires
            self.wf(),
            forall|a: MemoryPool, b: MemoryPool, p: TriePool|
                a.wf() && b.wf() && p.wf() ==> #[trigger] call_requires(f, (a, b, p)),
            forall|
                a: MemoryPool,
                b: MemoryPool,
                p: TriePool,
                out: (MemoryPool, MemoryPool, TriePool, T),
            |
                a.wf() && b.wf() && p.wf() && #[trigger] call_ensures(f, (a, b, p), out)
                    ==> out.0.wf() && out.1.wf() && out.2.wf(),
        ensures
            exists|
                a: MemoryPool,
                b: MemoryPool,
                p: TriePool,
                out: (MemoryPool, MemoryPool, TriePool, T),
            |
                a.wf() && b.wf() && p.wf() && #[trigger] call_ensures(f, (a, b, p), out) && out.3
                    == r,
    {
        let (data, handle) = self.lock.acquire_write();
        let Data { planned, finished, canceled, ids } = data;
        let (planned, canceled, ids, t) = f(planned, canceled, ids);
        handle.release_write(Data { planned, finished, canceled, ids });
        t
    }

    /// Applies an operation to the ID pool alone, atomically.
    pub fn apply_ids<T, F: FnOnce(TriePool) -> (TriePool, T)>(&self, f: F) -> (r: T)
        requires
            self.wf(),
            forall|p: TriePool| p.wf() ==> #[trigger] call_requires(f, (p,)),
            forall|p: TriePool, out: (TriePool, T)|
                p.wf() && #[trigger] call_ensures(f, (p,), out) ==> out.0.wf(),
        ensures
            exists|p: TriePool, out: (TriePool, T)|
                p.wf() && #[trigger] call_ensures(f, (p,), out) && out.1 == r,
    {
        let (data, handle) = self.lock.acquire_write();
        let Data { planned, finished, canceled, ids } = data;
        let (ids, t) = f(ids);
        handle.release_write(Data { planned, finished, canceled, ids });
        t
    }
}

} // verus!
