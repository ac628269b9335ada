//! Keeps the set of stitcher states closed.
use vstd::prelude::*;

verus! {

pub trait Seal {}

} // verus!
