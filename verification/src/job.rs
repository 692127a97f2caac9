//! The per-job simulation state: true length, untrusted predicted length,
//! and the work still remaining.  A job counts as finished as soon as its
//! remaining work is within the named tolerance, never by exact equality.

use vstd::prelude::*;
use crate::rat::{Rat, SRat, rat_le, rat_sub, rat_fits, rat_tolerance};

verus! {

/// Mathematical job state.
pub struct SJob {
    pub total: SRat,
    pub pred: SRat,
    pub rem: SRat,
}

impl SJob {
    /// All three quantities are well-formed rationals.
    pub open spec fn wf(self) -> bool {
        self.total.wf() && self.pred.wf() && self.rem.wf()
    }

    /// Finished: remaining work within the tolerance.
    pub open spec fn finished(self) -> bool {
        rat_le(self.rem, rat_tolerance())
    }
}

/// The job after `amount` of work has been applied to it.
pub open spec fn sjob_process(j: SJob, amount: SRat) -> SJob {
    SJob { total: j.total, pred: j.pred, rem: rat_sub(j.rem, amount) }
}

/// Executable job state.
#[derive(Clone, Copy, Debug)]
pub struct Job {
    id: usize,
    total_length: Rat,
    predicted_length: Rat,
    remaining: Rat,
}

impl View for Job {
    type V = SJob;

    closed spec fn view(&self) -> SJob {
        SJob { total: self.total_length@, pred: self.predicted_length@, rem: self.remaining@ }
    }
}

impl Job {
    /// A fresh job: the remaining work starts at the true length.
    pub fn new(id: usize, len: Rat, pred: Rat) -> (j: Job)
        ensures
            j@ == (SJob { total: len@, pred: pred@, rem: len@ }),
            j.id_spec() == id,
    {
        Job { id, total_length: len, predicted_length: pred, remaining: len }
    }

    /// The stable index this job had in the input vectors (not part of the
    /// view: no engine reads it).
    pub closed spec fn id_spec(&self) -> usize {
        self.id
    }

    /// The stable index this job had in the input vectors.
    pub fn id(&self) -> (i: usize)
        ensures
            i == self.id_spec(),
    {
        self.id
    }

    /// Reduce the remaining work by `amount`; reports a result out of the
    /// executable range, in which case the job is unchanged.
    pub fn process(&mut self, amount: Rat) -> (ok: bool)
        ensures
            ok <==> rat_fits(rat_sub(old(self)@.rem, amount@)),
            ok ==> final(self)@ == sjob_process(old(self)@, amount@) && final(self).id_spec()
                == old(self).id_spec(),
            !ok ==> *final(self) == *old(self),
    {
        match self.remaining.checked_sub(amount) {
            Some(r) => {
                self.remaining = r;
                true
            },
            None => false,
        }
    }

    /// Whether the remaining work is within the tolerance.
    pub fn is_finished(&self) -> (b: bool)
        ensures
            b == self@.finished(),
    {
        let tol = Rat::tolerance();
        self.remaining.le(&tol)
    }

    /// The true length.
    pub fn total_length(&self) -> (r: Rat)
        ensures
            r@ == self@.total,
    {
        self.total_length
    }

    /// The predicted length.
    pub fn predicted_length(&self) -> (r: Rat)
        ensures
            r@ == self@.pred,
    {
        self.predicted_length
    }

    /// The remaining work.
    pub fn remaining(&self) -> (r: Rat)
        ensures
            r@ == self@.rem,
    {
        self.remaining
    }
}

} // verus!
