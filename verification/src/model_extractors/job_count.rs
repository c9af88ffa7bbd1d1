//! Counts the jobs of a separator.

use crate::job::Job;
use vstd::prelude::*;

verus! {

/// Counts the number of detected jobs for a specific separator.
pub struct JobCounter {
    count: usize,
}

impl JobCounter {
    pub closed spec fn spec_count(&self) -> usize {
        self.count
    }

    pub fn new() -> (r: Self)
        ensures
            r.spec_count() == 0,
    {
        Self { count: 0 }
    }

    pub fn update(&mut self, _job: &Job)
        requires
            old(self).spec_count() < usize::MAX,
        ensures
            final(self).spec_count() == old(self).spec_count() + 1,
    {
        self.count += 1
    }

    pub fn get(&self) -> (r: usize)
        ensures
            r == self.spec_count(),
    {
        self.count
    }
}

impl Default for JobCounter {
    fn default() -> (r: Self)
        ensures
            r.spec_count() == 0,
    {
        Self::new()
    }
}

} // verus!
