pub mod catalog;
pub mod dedup;
pub mod jobs;
pub mod paths;
pub mod ident;
pub mod sidecar;
pub mod store;
pub mod sync;
pub mod tags;
pub mod text;

use vstd::prelude::*;

verus! {

/// An error of the catalog and tag stores.
#[derive(Clone, Copy, PartialEq, Eq, Structural, Debug)]
pub enum StoreError {
    NotFound,
    Conflict,
    CapacityExhausted,
}

} // verus!
