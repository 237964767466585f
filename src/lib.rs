//! Compact call-stack traces: module-relative offsets of the frames written as base64
//! variable-length quantities, and their resolution against a symbol cache.
//!
//! - `vlq`: the codec of the encoded trace.
//! - `resolve`: from an instruction pointer to an offset within its module.
//! - `symbolicate`: building a symbol cache, and resolving an encoded trace against it.
use vstd::prelude::*;

pub mod resolve;
pub mod symbolicate;
pub mod vlq;

verus! {

} // verus!
