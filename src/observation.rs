use vstd::prelude::*;

verus! {

/// A feature vector.
pub type Pixels = Vec<i32>;

/// One labelled feature vector.
#[derive(Clone, Debug)]
pub struct Observation {
    pub label: String,
    pub pixels: Pixels,
}

} // verus!
