//! Turns job separations into jobs.

use crate::events::TraceEvent;
use crate::job::Job;
use crate::job_separator::dfa::AResult;
use crate::job_separator::{spec_make_job, JobSeparation, JobSeparator, SignatureMatcher};
use crate::utils::{find_key, lemma_find_key, Dispatcher};
use vstd::prelude::*;

verus! {

broadcast use vstd::seq_lib::to_multiset_insert, vstd::seq_lib::to_multiset_build;

/// An entry of the tracker: a separator and its last separation, if any.
pub type SeparationEntry = (JobSeparator, Option<JobSeparation>);

/// A back-to-back separation without an arrival time keeps the release of
/// the previous one.
pub open spec fn spec_adjusted(prev: JobSeparation, s: JobSeparation) -> JobSeparation {
    if s.curr_first_cycle == s.prev_end && s.curr_arrival is None {
        JobSeparation { curr_release: prev.curr_release, ..s }
    } else {
        s
    }
}

/// The last separation recorded for `sep` in `m`.
pub open spec fn spec_last(m: Seq<SeparationEntry>, sep: JobSeparator) -> Option<JobSeparation> {
    let i = find_key(m, sep);
    if i >= 0 {
        m[i].1
    } else {
        None
    }
}

/// Records one separation: the job between the previous separation of the
/// same separator and this one is completed.
pub open spec fn spec_track_step(
    m: Seq<SeparationEntry>,
    jobs: Seq<(JobSeparator, Job)>,
    item: (JobSeparator, JobSeparation),
) -> (Seq<SeparationEntry>, Seq<(JobSeparator, Job)>) {
    let (sep, s) = item;
    let i = find_key(m, sep);
    let last = spec_last(m, sep);
    let s2 = match last {
        Some(prev) => spec_adjusted(prev, s),
        None => s,
    };
    let jobs2 = match last {
        Some(prev) => jobs.push((sep, spec_make_job(prev, s2))),
        None => jobs,
    };
    let m2 = if i >= 0 {
        m.update(i, (sep, Some(s2)))
    } else {
        m.push((sep, Some(s2)))
    };
    (m2, jobs2)
}

/// Records the separations of `seps` in order.
pub open spec fn spec_track(
    m: Seq<SeparationEntry>,
    jobs: Seq<(JobSeparator, Job)>,
    seps: Seq<(JobSeparator, JobSeparation)>,
) -> (Seq<SeparationEntry>, Seq<(JobSeparator, Job)>)
    decreases seps.len(),
{
    if seps.len() == 0 {
        (m, jobs)
    } else {
        let (m1, j1) = spec_track(m, jobs, seps.drop_last());
        spec_track_step(m1, j1, seps.last())
    }
}

/// The first cycles of the pending jobs, in the order of the entries.
pub open spec fn spec_first_cycles(m: Seq<SeparationEntry>) -> Seq<u64>
    decreases m.len(),
{
    if m.len() == 0 {
        Seq::empty()
    } else {
        let rest = spec_first_cycles(m.drop_last());
        match m.last().1 {
            Some(s) => rest.push(s.curr_first_cycle),
            None => rest,
        }
    }
}

pub open spec fn sorted_u64(s: Seq<u64>) -> bool {
    forall|i: int, j: int| 0 <= i < j < s.len() ==> s[i] <= s[j]
}

/// Inserts `x` in a sorted vector, keeping it sorted.
fn sorted_insert(v: &mut Vec<u64>, x: u64)
    requires
        sorted_u64(old(v)@),
    ensures
        sorted_u64(final(v)@),
        final(v)@.to_multiset() == old(v)@.to_multiset().insert(x),
{
    let mut p: usize = 0;
    while p < v.len() && v[p] <= x
        invariant
            0 <= p <= v@.len(),
            forall|i: int| 0 <= i < p ==> v@[i] <= x,
        decreases v@.len() - p,
    {
        p += 1;
    }
    let ghost s = v@;
    v.insert(p, x);
    proof {
        assert(v@ == s.insert(p as int, x));
        assert forall|i: int, j: int| 0 <= i < j < v@.len() implies v@[i] <= v@[j] by {
            if j < p {
            } else if j == p {
            } else if i < p {
                assert(s[i] <= x);
                assert(x <= s[p as int]);
                assert(s[p as int] <= s[j - 1]);
            } else if i == p {
                assert(x <= s[p as int]);
                assert(s[p as int] <= s[j - 1]);
            } else {
            }
        }
    }
}

/// Tracks job separations and turns consecutive ones into jobs.
pub struct JobTracker {
    signature_matcher: SignatureMatcher,
    last_separation: Dispatcher<JobSeparator, Option<JobSeparation>>,
}

impl JobTracker {
    pub closed spec fn matcher(&self) -> SignatureMatcher {
        self.signature_matcher
    }

    /// The separators seen, each with its last separation.
    pub closed spec fn separations(&self) -> Seq<SeparationEntry> {
        self.last_separation.entries()
    }

    pub closed spec fn wf(&self) -> bool {
        &&& self.signature_matcher.wf()
        &&& self.last_separation.wf()
    }

    /// First cycles of the pending jobs.
    pub open spec fn spec_pendings(&self) -> Seq<u64> {
        spec_first_cycles(self.separations())
    }

    pub fn new() -> (r: Self)
        ensures
            r.wf(),
            r.separations() == Seq::<SeparationEntry>::empty(),
            r.matcher().buffered() == Seq::<TraceEvent>::empty(),
            r.matcher().is_fresh(),
    {
        Self { signature_matcher: SignatureMatcher::new(), last_separation: Dispatcher::new() }
    }

    /// Initializes the signature matcher.
    pub fn init(&mut self)
        requires
            old(self).wf(),
            old(self).matcher().buffered().len() == 0,
        ensures
            final(self).wf(),
            final(self).separations() == old(self).separations(),
            final(self).matcher().buffered() == seq![TraceEvent::spec_start_of_trace()],
            old(self).matcher().is_fresh() ==> final(self).matcher().started(),
    {
        self.signature_matcher.init()
    }

    /// Consumes an event. The jobs completed by the separations it reveals
    /// are appended to `detected_jobs`; returns the number of separations.
    pub fn consume_event(&mut self, event: TraceEvent, detected_jobs: &mut Vec<(JobSeparator, Job)>) -> (r: usize)
        requires
            old(self).wf(),
        ensures
            final(self).wf(),
            ({
                let seps = old(self).matcher().extracted_on(event);
                &&& r == seps.len()
                &&& (final(self).separations(), final(detected_jobs)@) == spec_track(
                    old(self).separations(),
                    old(detected_jobs)@,
                    seps,
                )
            }),
    {
        let mut separations: Vec<(JobSeparator, JobSeparation)> = Vec::new();
        self.signature_matcher.consume_event(event, &mut separations);
        let ghost seps = separations@;
        proof {
            assert(seps =~= old(self).matcher().extracted_on(event));
            assert(seps.take(0) =~= Seq::<(JobSeparator, JobSeparation)>::empty());
        }
        let mut i: usize = 0;
        while i < separations.len()
            invariant
                seps == separations@,
                0 <= i <= seps.len(),
                self.last_separation.wf(),
                self.signature_matcher.wf(),
                (self.last_separation.entries(), detected_jobs@) == spec_track(
                    old(self).last_separation.entries(),
                    old(detected_jobs)@,
                    seps.take(i as int),
                ),
            decreases seps.len() - i,
        {
            let (separator, separation) = separations[i];
            let ghost m0 = self.last_separation.entries();
            proof {
                lemma_find_key(m0, separator);
                assert(seps.take(i + 1).drop_last() == seps.take(i as int));
                assert(seps.take(i + 1).last() == seps[i as int]);
            }
            let mut s = separation;
            let last_separation = self.last_separation.get_or_default(&separator);
            let last = *last_separation;
            if let Some(prev) = last {
                if s.is_back_to_back() && s.curr_arrival.is_none() {
                    s.curr_release = prev.curr_release;
                }
                let job = prev.make_job(&s);
                detected_jobs.push((separator, job));
            }
            *last_separation = Some(s);
            i += 1;
        }
        proof {
            assert(seps.take(seps.len() as int) == seps);
        }
        separations.len()
    }

    /// The separators seen so far.
    pub fn job_separators(&self) -> (r: Vec<JobSeparator>)
        ensures
            r@ == self.separations().map_values(|e: SeparationEntry| e.0),
    {
        self.last_separation.keys()
    }

    /// Nothing to clean: jobs are handed out as soon as they complete.
    pub fn clean(&mut self)
        ensures
            *final(self) == *old(self),
    {
    }

    /// The first cycles of the pending jobs, in increasing order.
    pub fn pendings_first_cycle(&self) -> (r: Vec<u64>)
        ensures
            sorted_u64(r@),
            r@.to_multiset() == self.spec_pendings().to_multiset(),
    {
        let items = self.last_separation.items();
        let ghost m = items@;
        let mut ret: Vec<u64> = Vec::new();
        let mut i: usize = 0;
        while i < items.len()
            invariant
                m == items@,
                m == self.separations(),
                0 <= i <= m.len(),
                sorted_u64(ret@),
                ret@.to_multiset() == spec_first_cycles(m.take(i as int)).to_multiset(),
            decreases m.len() - i,
        {
            proof {
                assert(m.take(i + 1).drop_last() == m.take(i as int));
                assert(m.take(i + 1).last() == m[i as int]);
            }
            if let Some(e) = &items[i].1 {
                sorted_insert(&mut ret, e.curr_first_cycle);
            }
            i += 1;
        }
        proof {
            assert(m.take(m.len() as int) == m);
        }
        ret
    }

    /// The first cycle of the oldest pending job, `u64::MAX` if there is
    /// none.
    pub fn oldest_job_first_cycle(&self) -> (r: u64)
        ensures
            self.spec_pendings().len() == 0 ==> r == u64::MAX,
            self.spec_pendings().len() > 0 ==> self.spec_pendings().contains(r),
            forall|i: int| 0 <= i < self.spec_pendings().len() ==> r <= #[trigger] self.spec_pendings()[i],
    {
        let items = self.last_separation.items();
        let ghost m = items@;
        let mut ret: u64 = u64::MAX;
        let mut found = false;
        let mut i: usize = 0;
        while i < items.len()
            invariant
                m == items@,
                m == self.separations(),
                0 <= i <= m.len(),
                found == (spec_first_cycles(m.take(i as int)).len() > 0),
                found ==> spec_first_cycles(m.take(i as int)).contains(ret),
                !found ==> ret == u64::MAX,
                forall|k: int| 0 <= k < spec_first_cycles(m.take(i as int)).len() ==> ret <= #[trigger] spec_first_cycles(m.take(i as int))[k],
            decreases m.len() - i,
        {
            proof {
                assert(m.take(i + 1).drop_last() == m.take(i as int));
                assert(m.take(i + 1).last() == m[i as int]);
            }
            let ghost before = spec_first_cycles(m.take(i as int));
            if let Some(e) = &items[i].1 {
                if !found || e.curr_first_cycle < ret {
                    ret = e.curr_first_cycle;
                }
                found = true;
                proof {
                    let after = spec_first_cycles(m.take(i + 1));
                    assert(after == before.push(e.curr_first_cycle));
                    assert forall|k: int| 0 <= k < after.len() implies ret <= #[trigger] after[k] by {
                        if k < before.len() {
                            assert(after[k] == before[k]);
                        }
                    }
                    if ret == e.curr_first_cycle {
                        assert(after[after.len() - 1] == ret);
                    } else {
                        let w = choose|k: int| 0 <= k < before.len() && before[k] == ret;
                        assert(after[w] == ret);
                    }
                }
            }
            i += 1;
        }
        proof {
            assert(m.take(m.len() as int) == m);
        }
        ret
    }

    /// Returns true if a signature match is in progress.
    pub fn ongoing_matching(&self) -> (r: bool)
        requires
            self.wf(),
        ensures
            r == self.matcher().spec_ongoing(),
    {
        self.signature_matcher.ongoing_matching()
    }
}

impl Default for JobTracker {
    fn default() -> (r: Self)
        ensures
            r.wf(),
            r.separations() == Seq::<SeparationEntry>::empty(),
            r.matcher().buffered() == Seq::<TraceEvent>::empty(),
    {
        Self::new()
    }
}

} // verus!
