//! Evaluation of non-clairvoyant scheduling policies that are given
//! untrusted predicted processing times next to the true ones.  Three
//! policies — Adaptive Round Robin, the Two-Stage schedule, and Preferential
//! Round Robin — each simulate a single machine in virtual time and return
//! the total flow time as one exact rational, governed by a trust parameter
//! in `[0, 1]`.

use vstd::prelude::*;

pub mod rat;
pub mod job;
pub mod sim;
pub mod instance;
pub mod pred;
pub mod arr;
pub mod two_stage;
pub mod prr;
pub mod rtnorm;
pub mod laws;

use crate::rat::{Rat, SRat};
use crate::sim::SimError;

verus! {

/// A value with an offline-optimal total flow time.
pub trait Opt {
    /// The optimal total flow time, as a mathematical rational.
    spec fn opt_spec(&self) -> SRat;

    /// The fault `opt` reports, if any.
    spec fn opt_fault(&self) -> Option<SimError>;

    /// Every intermediate of the computation fits the executable range.
    spec fn opt_fits(&self) -> bool;

    /// The offline-optimal total flow time, or the exact fault; `Overflow`
    /// comes only when some intermediate falls out of the executable range.
    fn opt(&self) -> (r: Result<Rat, SimError>)
        ensures
            match self.opt_fault() {
                Some(e) => r == Err::<Rat, SimError>(e),
                None => {
                    &&& (r matches Ok(v) ==> v@ == self.opt_spec())
                    &&& (r is Err ==> r == Err::<Rat, SimError>(SimError::Overflow)
                        && !self.opt_fits())
                },
            },
    ;
}

/// A value drawn fresh from generation parameters (instances from a length
/// distribution, predictions from an instance and a noise level).  The
/// generators themselves draw random numbers and live with the caller.
pub trait Gen<P> where Self: Sized {
    /// Draw a fresh value from the parameters.
    fn generate(params: &P) -> Self;
}

} // verus!
