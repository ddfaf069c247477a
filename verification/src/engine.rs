//! The engine capability: the narrow contract every key-value engine
//! offers. A handle is cheap to clone and safe to share across threads;
//! clones operate on the same underlying store.

use vstd::prelude::*;

use crate::errors::KvsError;

verus! {

/// A shareable key-value engine.
pub trait KvsEngine: Clone + Send + 'static {
    /// Get the value for the given key, if it exists.
    fn get(&self, key: String) -> Result<Option<String>, KvsError>;

    /// Set the value for the given key, overwriting any previous value.
    fn set(&self, key: String, value: String) -> Result<(), KvsError>;

    /// Remove the given key. Reports `KeyNotFound` if the key is absent.
    fn remove(&self, key: String) -> Result<(), KvsError>;
}

} // verus!
