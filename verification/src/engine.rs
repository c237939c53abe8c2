//! The capability that every engine offers: set, get and remove.

use vstd::prelude::*;
use crate::error::Result;

verus! {

/// A key-value engine. The log-structured store of this crate is one; it
/// becomes an engine together with the files that the caller keeps. Other
/// engines may stand behind the same three operations.
pub trait KvsEngine {
    /// Set the value of a string key to a string.
    ///
    /// Return an error if the value is not written successfully.
    fn set(&mut self, key: String, value: String) -> Result<()>;

    /// Get the string value of a string key. If the key does not exist,
    /// return `None`.
    ///
    /// Return an error if the value is not read successfully.
    fn get(&mut self, key: String) -> Result<Option<String>>;

    /// Remove a given string key.
    ///
    /// Return an error if the key does not exist or the removal is not
    /// written successfully.
    fn remove(&mut self, key: String) -> Result<()>;
}

} // verus!
