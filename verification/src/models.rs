//! Rows of the database that the library's decisions read.
use vstd::prelude::*;

verus! {

/// An access tier; a higher rank sees more pools.
#[derive(Debug)]
pub struct Tier {
    pub id: i32,
    pub name: String,
    pub rank: i32,
}

} // verus!
