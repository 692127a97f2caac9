//! Scheduling instances and the offline-optimal baseline.
//!
//! An instance is an ordered vector of non-negative true job lengths; a
//! prediction is an equal-length vector of untrusted estimates.  The optimal
//! total flow time on one machine with simultaneous release is obtained by
//! running the jobs shortest-first: with the lengths sorted ascending, the
//! job of rank `i` (0-indexed) among `n` is counted `n - i` times.

use vstd::prelude::*;
use crate::rat::{Rat, SRat, rat_le, rat_lt, rat_add, rat_mul, rat_of_int, rat_fits};
use crate::sim::{SimError, rat_zero, rats_view};

verus! {

/// Stable insertion of a length into an ascending sequence.
pub open spec fn insert_by_val(x: SRat, s: Seq<SRat>) -> Seq<SRat>
    decreases s.len(),
{
    if s.len() == 0 {
        seq![x]
    } else if rat_le(s[0], x) {
        seq![s[0]] + insert_by_val(x, s.drop_first())
    } else {
        seq![x] + s
    }
}

/// Stable insertion sort of lengths, ascending.
pub open spec fn sort_rats(s: Seq<SRat>) -> Seq<SRat>
    decreases s.len(),
{
    if s.len() == 0 {
        Seq::<SRat>::empty()
    } else {
        insert_by_val(s.last(), sort_rats(s.drop_last()))
    }
}

/// `sum of (n - i) * s[i]` over an (ascending) sequence: the first element is
/// counted once for every job, the next one for every job but the first, and
/// so on.
pub open spec fn weighted_total(s: Seq<SRat>) -> SRat
    decreases s.len(),
{
    if s.len() == 0 {
        rat_zero()
    } else {
        rat_add(rat_mul(rat_of_int(s.len() as int), s[0]), weighted_total(s.drop_first()))
    }
}

/// The offline-optimal total flow time of a length vector: the weighted sum
/// of the lengths sorted ascending (shortest job first).
pub open spec fn optimal_flow_spec(li: Seq<SRat>) -> SRat {
    weighted_total(sort_rats(li))
}

/// Every reduced rational of the rank-weighted sum fits the executable
/// range, suffix by suffix: each weight-length product and each partial sum.
pub open spec fn weighted_fits(s: Seq<SRat>) -> bool
    decreases s.len(),
{
    if s.len() == 0 {
        true
    } else {
        rat_fits(rat_mul(rat_of_int(s.len() as int), s[0])) && rat_fits(weighted_total(s))
            && weighted_fits(s.drop_first())
    }
}

/// The baseline stays within the executable range: the job count and every
/// intermediate of the weighted sum over the sorted lengths fit.
pub open spec fn opt_fits(li: Seq<SRat>) -> bool {
    li.len() <= 0x7fff_ffff_ffff_ffff && weighted_fits(sort_rats(li))
}

proof fn lemma_weighted_fits_skip(s: Seq<SRat>, i: int)
    requires
        0 <= i <= s.len(),
        weighted_fits(s),
    ensures
        weighted_fits(s.skip(i)),
    decreases i,
{
    if i > 0 {
        lemma_weighted_fits_skip(s, i - 1);
        assert(s.skip(i - 1).len() == s.len() - i + 1 > 0);
        assert(s.skip(i - 1).drop_first() =~= s.skip(i));
    } else {
        assert(s.skip(0) =~= s);
    }
}

/// The only input fault of the baseline: a negative length.
pub open spec fn length_fault(li: Seq<SRat>) -> Option<SimError> {
    if exists|i: int| 0 <= i < li.len() && rat_lt(#[trigger] li[i], rat_zero()) {
        Some(SimError::NegativeLength)
    } else {
        None
    }
}

/// As `lemma_insert_at` in `sim`, for plain lengths.
proof fn lemma_insert_val_at(x: SRat, s: Seq<SRat>, k: int)
    requires
        0 <= k <= s.len(),
        forall|i: int| 0 <= i < k ==> rat_le(#[trigger] s[i], x),
        k < s.len() ==> !rat_le(s[k], x),
    ensures
        insert_by_val(x, s) == s.subrange(0, k) + seq![x] + s.subrange(k, s.len() as int),
    decreases s.len(),
{
    if s.len() == 0 {
        assert(insert_by_val(x, s) =~= s.subrange(0, k) + seq![x] + s.subrange(k, s.len() as int));
    } else if k == 0 {
        assert(insert_by_val(x, s) =~= s.subrange(0, 0) + seq![x] + s.subrange(0, s.len() as int));
    } else {
        let rest = s.drop_first();
        assert(forall|i: int| 0 <= i < k - 1 ==> #[trigger] rest[i] == s[i + 1]);
        lemma_insert_val_at(x, rest, k - 1);
        assert(seq![s[0]] + (rest.subrange(0, k - 1) + seq![x] + rest.subrange(
            k - 1,
            rest.len() as int,
        )) =~= s.subrange(0, k) + seq![x] + s.subrange(k, s.len() as int));
    }
}

/// The offline-optimal total flow time (shortest job first), or the exact
/// fault: a negative length is rejected, and `Overflow` comes only when some
/// reduced rational of the run falls out of the executable range.
pub fn optimal_flow_time(lengths: &Vec<Rat>) -> (r: Result<Rat, SimError>)
    ensures
        match length_fault(rats_view(lengths@)) {
            Some(e) => r == Err::<Rat, SimError>(e),
            None => {
                &&& (r matches Ok(v) ==> v@ == optimal_flow_spec(rats_view(lengths@)))
                &&& (r is Err ==> r == Err::<Rat, SimError>(SimError::Overflow) && !opt_fits(
                    rats_view(lengths@),
                ))
            },
        },
{
    let ghost sli = rats_view(lengths@);
    let zero = Rat::from_int(0);
    let mut i: usize = 0;
    while i < lengths.len()
        invariant
            0 <= i <= lengths.len(),
            sli == rats_view(lengths@),
            forall|k: int| 0 <= k < i ==> !rat_lt(#[trigger] sli[k], rat_zero()),
            zero@ == rat_zero(),
        decreases lengths.len() - i,
    {
        if lengths[i].lt(&zero) {
            assert(rat_lt(sli[i as int], rat_zero()));
            return Err(SimError::NegativeLength);
        }
        i += 1;
    }
    if lengths.len() as u64 > 0x7fff_ffff_ffff_ffff {
        return Err(SimError::Overflow);
    }
    let mut sorted: Vec<Rat> = Vec::new();
    let mut i: usize = 0;
    while i < lengths.len()
        invariant
            0 <= i <= lengths.len(),
            sli == rats_view(lengths@),
            forall|k: int| 0 <= k < sli.len() ==> !rat_lt(#[trigger] sli[k], rat_zero()),
            rats_view(sorted@) == sort_rats(sli.take(i as int)),
            sorted@.len() == i,
        decreases lengths.len() - i,
    {
        let x = lengths[i];
        let ghost sorted_s = rats_view(sorted@);
        let mut k: usize = 0;
        loop
            invariant_except_break
                0 <= k <= sorted.len(),
                forall|t: int| 0 <= t < k ==> rat_le(#[trigger] sorted_s[t], x@),
                sorted_s == rats_view(sorted@),
                sorted@.len() == i,
            ensures
                0 <= k <= sorted.len(),
                forall|t: int| 0 <= t < k ==> rat_le(#[trigger] sorted_s[t], x@),
                k < sorted.len() ==> !rat_le(sorted_s[k as int], x@),
                sorted_s == rats_view(sorted@),
                sorted@.len() == i,
            decreases sorted.len() - k,
        {
            if k == sorted.len() {
                break ;
            }
            if !sorted[k].le(&x) {
                break ;
            }
            k += 1;
        }
        sorted.insert(k, x);
        proof {
            lemma_insert_val_at(x@, sorted_s, k as int);
            assert(rats_view(sorted@) =~= sorted_s.subrange(0, k as int) + seq![x@]
                + sorted_s.subrange(k as int, sorted_s.len() as int));
            assert(sli.take(i as int + 1).drop_last() =~= sli.take(i as int));
            assert(sli.take(i as int + 1).last() == x@);
        }
        i += 1;
    }
    assert(sli.take(sli.len() as int) =~= sli);
    let ghost ss = rats_view(sorted@);
    let n = sorted.len();
    let mut acc = Rat::from_int(0);
    let mut i: usize = n;
    proof {
        assert(ss.skip(n as int) =~= Seq::<SRat>::empty());
    }
    while i > 0
        invariant
            0 <= i <= n,
            n == sorted@.len(),
            ss == rats_view(sorted@),
            ss == sort_rats(sli),
            n <= 0x7fff_ffff_ffff_ffff,
            sli == rats_view(lengths@),
            forall|k: int| 0 <= k < sli.len() ==> !rat_lt(#[trigger] sli[k], rat_zero()),
            acc@ == weighted_total(ss.skip(i as int)),
        decreases i,
    {
        i -= 1;
        proof {
            assert(ss.skip(i as int).drop_first() =~= ss.skip(i as int + 1));
            assert(ss.skip(i as int)[0] == ss[i as int]);
            assert(ss.skip(i as int).len() == n - i);
        }
        let w = Rat::from_int((n - i) as i64);
        let t = match w.checked_mul(sorted[i]) {
            Some(v) => v,
            None => {
                proof {
                    if opt_fits(sli) {
                        lemma_weighted_fits_skip(ss, i as int);
                    }
                }
                return Err(SimError::Overflow);
            },
        };
        let acc2 = match t.checked_add(acc) {
            Some(v) => v,
            None => {
                proof {
                    if opt_fits(sli) {
                        lemma_weighted_fits_skip(ss, i as int);
                    }
                }
                return Err(SimError::Overflow);
            },
        };
        acc = acc2;
    }
    proof {
        assert(ss.skip(0) =~= ss);
    }
    Ok(acc)
}

/// An ordered vector of job lengths.  A prediction is an instance over the
/// estimated lengths.
#[derive(Clone, Debug)]
pub struct Instance {
    pub jobs: Vec<Rat>,
}

impl View for Instance {
    type V = Seq<SRat>;

    open spec fn view(&self) -> Seq<SRat> {
        rats_view(self.jobs@)
    }
}

impl Instance {
    /// The length of the job at `idx`.
    pub fn job_len(&self, idx: usize) -> (r: Rat)
        requires
            idx < self@.len(),
        ensures
            r@ == self@[idx as int],
    {
        self.jobs[idx]
    }

    /// How many jobs the instance holds.
    pub fn num_jobs(&self) -> (n: usize)
        ensures
            n == self@.len(),
    {
        self.jobs.len()
    }
}

impl crate::Opt for Instance {
    open spec fn opt_spec(&self) -> SRat {
        optimal_flow_spec(self@)
    }

    open spec fn opt_fault(&self) -> Option<SimError> {
        length_fault(self@)
    }

    open spec fn opt_fits(&self) -> bool {
        opt_fits(self@)
    }

    fn opt(&self) -> (r: Result<Rat, SimError>) {
        optimal_flow_time(&self.jobs)
    }
}

impl From<Vec<Rat>> for Instance {
    fn from(lengths: Vec<Rat>) -> (r: Instance) {
        Instance { jobs: lengths }
    }
}

impl vstd::std_specs::convert::FromSpecImpl<Vec<Rat>> for Instance {
    open spec fn obeys_from_spec() -> bool {
        true
    }

    open spec fn from_spec(lengths: Vec<Rat>) -> Instance {
        Instance { jobs: lengths }
    }
}

} // verus!
