use vstd::prelude::*;

verus! {

/// Counts events by bin.
#[derive(Debug)]
pub struct Histo {
    pub bins: Vec<u64>,
}

impl Histo {
    /// How often `bin` was counted.
    pub open spec fn count(&self, bin: int) -> int {
        if 0 <= bin < self.bins@.len() {
            self.bins@[bin] as int
        } else {
            0
        }
    }

    pub fn new() -> (histo: Histo)
        ensures
            histo.bins@.len() == 0,
            forall|bin: int| histo.count(bin) == 0,
    {
        Histo { bins: Vec::new() }
    }

    /// Counts one more event in `bin`; the bins up to it are made if need be.
    pub fn add(&mut self, bin: usize)
        requires
            bin < usize::MAX,
            old(self).count(bin as int) < u64::MAX,
        ensures
            final(self).count(bin as int) == old(self).count(bin as int) + 1,
            forall|other: int| other != bin ==> final(self).count(other) == old(self).count(other),
            final(self).bins@.len() == if old(self).bins@.len() <= bin {
                bin + 1
            } else {
                old(self).bins@.len() as int
            },
    {
        if self.bins.len() <= bin {
            self.bins.resize(bin + 1, 0);
        }
        self.bins[bin] += 1;
    }
}

/// The events of the first bins, each counted as often as the number of its
/// bin says, the bins numbered from 1.
pub open spec fn weighted(bins: Seq<u64>) -> nat
    decreases bins.len(),
{
    if bins.len() == 0 {
        0
    } else {
        weighted(bins.drop_last()) + bins.last() as nat * bins.len()
    }
}

/// More bins weigh no less.
pub proof fn lemma_weighted_grows(bins: Seq<u64>, upto: int)
    requires
        0 <= upto <= bins.len(),
    ensures
        weighted(bins.take(upto)) <= weighted(bins),
    decreases bins.len() - upto,
{
    if upto < bins.len() {
        lemma_weighted_grows(bins, upto + 1);
        assert(bins.take(upto + 1).drop_last() =~= bins.take(upto));
        assert(bins.take(upto + 1).last() as nat * bins.take(upto + 1).len() >= 0) by (nonlinear_arith);
    } else {
        assert(bins.take(upto) =~= bins);
    }
}

impl Histo {
    /// The sum of the events, each counted as often as the number of its bin
    /// says, the bins numbered from 1; `None` where the sum does not fit.
    pub fn total(&self) -> (total: Option<u64>)
        ensures
            match total {
                Some(sum) => sum == weighted(self.bins@),
                None => weighted(self.bins@) > u64::MAX,
            },
    {
        let mut sum: u64 = 0;
        let mut i: usize = 0;
        proof {
            assert(self.bins@.take(0) =~= Seq::<u64>::empty());
        }
        while i < self.bins.len()
            invariant
                i <= self.bins@.len(),
                sum == weighted(self.bins@.take(i as int)),
            decreases self.bins@.len() - i,
        {
            proof {
                assert(self.bins@.take(i + 1).drop_last() =~= self.bins@.take(i as int));
                lemma_weighted_grows(self.bins@, i + 1);
                assert(self.bins@.take(i + 1).last() as nat * (i + 1) >= 0) by (nonlinear_arith);
            }
            let weight: u64 = i as u64 + 1;
            let part = match self.bins[i].checked_mul(weight) {
                Some(part) => part,
                None => {
                    return None;
                },
            };
            sum = match sum.checked_add(part) {
                Some(sum) => sum,
                None => {
                    return None;
                },
            };
            i += 1;
        }
        proof {
            assert(self.bins@.take(self.bins@.len() as int) =~= self.bins@);
        }
        Some(sum)
    }
}

impl Default for Histo {
    fn default() -> (histo: Histo)
        ensures
            histo.bins@.len() == 0,
    {
        Histo::new()
    }
}

} // verus!
