//! Predictions: untrusted estimated lengths, index-aligned with an instance.

use vstd::prelude::*;
use crate::instance::Instance;

verus! {

/// A prediction is an instance over the estimated lengths.
pub type Prediction = Instance;

} // verus!
