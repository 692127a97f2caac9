//! Truncated normal distribution parameters.
//!
//! Only the validated parameter set lives here: the bounds, the mean and the
//! dispersion, with the rules that relate them.  Drawing samples needs a
//! random source and floating point, so it stays with the caller, which
//! converts these exact parameters as it sees fit.

use vstd::prelude::*;
use crate::rat::{Rat, SRat, rat_lt};

verus! {

/// Why a parameter set was refused.
#[derive(Clone, Copy, Debug, PartialEq, Eq, Structural)]
pub enum Error {
    /// The lower bound is not less than the upper bound, or the mean is not
    /// strictly between the bounds.
    BadBounds,
    /// The dispersion parameter is non-finite.  With exact rationals no
    /// value is non-finite, so validation here never reports it; it is kept
    /// for callers whose samplers work on approximate numbers.
    BadVariance,
}

impl Error {
    /// A human-readable account of the fault.
    pub fn message(&self) -> (m: &'static str)
        ensures
            *self is BadBounds ==> m@ == "lower >= upper or mean is not between lower and upper"@,
            *self is BadVariance ==> m@
                == "variation parameter is non-finite in (log)normal distribution"@,
    {
        match self {
            Error::BadBounds => "lower >= upper or mean is not between lower and upper",
            Error::BadVariance => "variation parameter is non-finite in (log)normal distribution",
        }
    }
}

/// Mathematical view of a parameter set.
pub struct STruncatedNormal {
    pub lower: Option<SRat>,
    pub upper: Option<SRat>,
    pub mean: SRat,
    pub std_dev: SRat,
}

/// A normal distribution truncated below, above, or on both sides.
#[derive(Clone, Copy, Debug)]
pub struct TruncatedNormal {
    lower: Option<Rat>,
    upper: Option<Rat>,
    mean: Rat,
    std_dev: Rat,
}

impl View for TruncatedNormal {
    type V = STruncatedNormal;

    closed spec fn view(&self) -> STruncatedNormal {
        STruncatedNormal {
            lower: match self.lower {
                Some(l) => Some(l@),
                None => None,
            },
            upper: match self.upper {
                Some(u) => Some(u@),
                None => None,
            },
            mean: self.mean@,
            std_dev: self.std_dev@,
        }
    }
}

impl TruncatedNormal {
    /// Truncation on both sides: the mean must lie strictly between the
    /// bounds.
    pub fn new(lower: Rat, upper: Rat, mean: Rat, std_dev: Rat) -> (r: Result<
        TruncatedNormal,
        Error,
    >)
        ensures
            (r is Err) <==> (!rat_lt(lower@, upper@) || !rat_lt(lower@, mean@) || !rat_lt(
                mean@,
                upper@,
            )),
            r matches Err(e) ==> e == Error::BadBounds,
            r matches Ok(t) ==> t@ == (STruncatedNormal {
                lower: Some(lower@),
                upper: Some(upper@),
                mean: mean@,
                std_dev: std_dev@,
            }),
    {
        if !lower.lt(&upper) || !lower.lt(&mean) || !mean.lt(&upper) {
            return Err(Error::BadBounds);
        }
        Ok(TruncatedNormal { lower: Some(lower), upper: Some(upper), mean, std_dev })
    }

    /// Truncation from above only: the mean must lie strictly below the
    /// bound.
    pub fn upper_truncation(upper: Rat, mean: Rat, std_dev: Rat) -> (r: Result<
        TruncatedNormal,
        Error,
    >)
        ensures
            (r is Err) <==> !rat_lt(mean@, upper@),
            r matches Err(e) ==> e == Error::BadBounds,
            r matches Ok(t) ==> t@ == (STruncatedNormal {
                lower: None,
                upper: Some(upper@),
                mean: mean@,
                std_dev: std_dev@,
            }),
    {
        if !mean.lt(&upper) {
            return Err(Error::BadBounds);
        }
        Ok(TruncatedNormal { lower: None, upper: Some(upper), mean, std_dev })
    }

    /// Truncation from below only: the mean must lie strictly above the
    /// bound.
    pub fn lower_truncation(lower: Rat, mean: Rat, std_dev: Rat) -> (r: Result<
        TruncatedNormal,
        Error,
    >)
        ensures
            (r is Err) <==> !rat_lt(lower@, mean@),
            r matches Err(e) ==> e == Error::BadBounds,
            r matches Ok(t) ==> t@ == (STruncatedNormal {
                lower: Some(lower@),
                upper: None,
                mean: mean@,
                std_dev: std_dev@,
            }),
    {
        if !lower.lt(&mean) {
            return Err(Error::BadBounds);
        }
        Ok(TruncatedNormal { lower: Some(lower), upper: None, mean, std_dev })
    }

    /// The lower truncation bound, if any.
    pub fn lower(&self) -> (l: Option<Rat>)
        ensures
            self@.lower is Some <==> l is Some,
            l matches Some(v) ==> self@.lower == Some(v@),
    {
        self.lower
    }

    /// The upper truncation bound, if any.
    pub fn upper(&self) -> (u: Option<Rat>)
        ensures
            self@.upper is Some <==> u is Some,
            u matches Some(v) ==> self@.upper == Some(v@),
    {
        self.upper
    }

    /// The mean.
    pub fn mean(&self) -> (m: Rat)
        ensures
            m@ == self@.mean,
    {
        self.mean
    }

    /// The dispersion parameter.
    pub fn std_dev(&self) -> (s: Rat)
        ensures
            s@ == self@.std_dev,
    {
        self.std_dev
    }
}

} // verus!
