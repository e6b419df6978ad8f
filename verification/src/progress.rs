//! The running count of parsed records that a completion run reports.
use vstd::prelude::*;

verus! {

/// How many of the records of a run have been taken up so far. The count
/// never goes back and never passes the total.
pub struct Progress {
    done: usize,
    total: usize,
}

impl Progress {
    #[verifier::type_invariant]
    pub closed spec fn within_total(self) -> bool {
        self.done <= self.total
    }

    /// The number of records taken up so far.
    pub closed spec fn count(&self) -> nat {
        self.done as nat
    }

    /// The number of records of the run.
    pub closed spec fn goal(&self) -> nat {
        self.total as nat
    }

    /// The progress of a run of `total` records of which none is taken up.
    pub fn new(total: usize) -> (result: Self)
        ensures
            result.count() == 0,
            result.goal() == total,
    {
        Progress { done: 0, total }
    }

    /// Counts one more record and returns the new count. Once every record
    /// is counted the count stays at the total.
    pub fn advance(&mut self) -> (result: usize)
        ensures
            final(self).goal() == old(self).goal(),
            final(self).count() == if old(self).count() < old(self).goal() {
                old(self).count() + 1
            } else {
                old(self).count()
            },
            result == final(self).count(),
            old(self).count() <= final(self).count() <= final(self).goal(),
    {
        proof {
            use_type_invariant(&*self);
        }
        let done = if self.done < self.total {
            self.done + 1
        } else {
            self.done
        };
        *self = Progress { done, total: self.total };
        done
    }

    /// The number of records taken up so far.
    pub fn done(&self) -> (result: usize)
        ensures
            result == self.count(),
            self.count() <= self.goal(),
    {
        proof {
            use_type_invariant(self);
        }
        self.done
    }

    /// The number of records of the run.
    pub fn total(&self) -> (result: usize)
        ensures
            result == self.goal(),
    {
        self.total
    }
}

} // verus!
