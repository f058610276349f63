//! The system that renders documents into images.
use vstd::prelude::*;

verus! {

/// The system that renders documents into images.
#[derive(Debug)]
pub struct ImageSystem {}

} // verus!
