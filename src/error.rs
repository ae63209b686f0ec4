//! Errors of the engine.

use vstd::prelude::*;

verus! {

#[derive(Debug, Clone, PartialEq, Eq)]
pub enum LsmError {
    WalError(String),
    SsTableError(String),
    CacheError(String),
    IoError(String),
    LogError(String),
    KeyNotFound(String),
}

} // verus!
