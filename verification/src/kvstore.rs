//! The shared store handle.
//!
//! A `KvStore` wraps the engine in a verified reader-writer lock behind a
//! reference-counted pointer: clones are cheap and share the same store, and
//! every operation runs under the lock, so operations from many threads
//! serialize and each one sees the store's invariant.

use std::sync::Arc;

use vstd::prelude::*;
use vstd::rwlock::{RwLock, RwLockPredicate};

use crate::backend::SegmentBackend;
use crate::engine::KvsEngine;
use crate::errors::KvsError;
use crate::store::StoreCore;

verus! {

/// The lock's invariant: the guarded engine state is well formed.
pub struct StorePred<B: SegmentBackend> {
    marker: core::marker::PhantomData<B>,
}

impl<B: SegmentBackend> RwLockPredicate<StoreCore<B>> for StorePred<B> {
    open spec fn inv(self, v: StoreCore<B>) -> bool {
        v.inv()
    }
}

/// A cheaply cloneable, thread-safe handle to one store.
pub struct KvStore<B: SegmentBackend + Send + Sync + 'static> {
    inner: Arc<RwLock<StoreCore<B>, StorePred<B>>>,
}

impl<B: SegmentBackend + Send + Sync + 'static> KvStore<B> {
    /// Share an engine: every operation on this handle, or on a clone of
    /// it, runs under one lock around `core`.
    pub fn from_core(core: StoreCore<B>) -> (r: KvStore<B>)
        requires
            core.inv(),
    {
        let pred = Ghost(StorePred::<B> { marker: core::marker::PhantomData });
        KvStore { inner: Arc::new(RwLock::new(core, pred)) }
    }
}

impl<B: SegmentBackend + Send + Sync + 'static> Clone for KvStore<B> {
    /// Relies on Arc::clone: the clone shares the same lock and store.
    #[verifier::external_body]
    fn clone(&self) -> (r: Self) {
        KvStore { inner: Arc::clone(&self.inner) }
    }
}

impl<B: SegmentBackend + Send + Sync + 'static> KvsEngine for KvStore<B> {
    /// The store behind the lock may change between operations, so only the
    /// error taxonomy can be promised here: a read fails only on I/O.
    fn get(&self, key: String) -> (r: Result<Option<String>, KvsError>)
        ensures
            r matches Err(e) ==> e == KvsError::Io,
    {
        let (mut core, handle) = self.inner.acquire_write();
        let r = core.get(&key);
        handle.release_write(core);
        r
    }

    /// A write fails only on I/O.
    fn set(&self, key: String, value: String) -> (r: Result<(), KvsError>)
        ensures
            r matches Err(e) ==> e == KvsError::Io,
    {
        let (mut core, handle) = self.inner.acquire_write();
        let r = core.set(key, value);
        handle.release_write(core);
        r
    }

    /// A removal fails only on a missing key or on I/O.
    fn remove(&self, key: String) -> (r: Result<(), KvsError>)
        ensures
            r matches Err(e) ==> (e == KvsError::KeyNotFound || e == KvsError::Io),
    {
        let (mut core, handle) = self.inner.acquire_write();
        let r = core.remove(key);
        handle.release_write(core);
        r
    }
}

} // verus!
