//! What a storage engine offers to the server.

use vstd::prelude::*;
use crate::error::KvsError;

verus! {

/// A storage engine: a handle that can be cloned cheaply and shared between
/// the tasks that serve connections.
pub trait KvsEngine: Clone + Send + 'static {
    /// The latest value of `key`.
    fn get(&self, key: String) -> Result<String, KvsError>;

    /// Gives `key` the value; hands back the value it had, if any.
    fn set(&self, key: String, value: String) -> Result<Option<String>, KvsError>;

    /// Takes `key` out.
    fn remove(&self, key: String) -> Result<(), KvsError>;
}

} // verus!
