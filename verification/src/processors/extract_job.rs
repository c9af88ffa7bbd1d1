//! Job extraction: the jobs of each task, with their execution and
//! suspension times, grouped by job separator.

use crate::events::{EventData, TraceEvent};
use crate::io::LimeOutputDirectory;
use crate::ir::timeline::layers::base::{lemma_same_coverage, spec_same, BaseLayer};
use crate::ir::timeline::layers::execution::ExecutionLayer;
use crate::ir::timeline::layers::suspension::SuspensionLayer;
use crate::ir::timeline::layers::Layer;
use crate::ir::Ir;
use crate::job::{spec_boundaries, Job};
use crate::job_separator::JobSeparator;
use crate::task::TaskId;
use crate::utils::{find_key, lemma_find_key, Dispatcher, ThreadId};
use vstd::prelude::*;

verus! {

/// A job with the processor time it used and the time it was suspended.
#[derive(Clone, Copy, Debug, PartialEq, Eq, Structural)]
pub struct JobSummary {
    pub job: Job,
    pub execution_time: u64,
    pub suspension_time: u64,
}

impl JobSummary {
    pub fn new(job: Job, execution_time: u64, suspension_time: u64) -> (r: Self)
        ensures
            r == (JobSummary { job, execution_time, suspension_time }),
    {
        Self { job, execution_time, suspension_time }
    }
}

/// The summary of `j` on a timeline whose layers are `rt` and `su`.
pub open spec fn spec_summary(j: Job, rt: BaseLayer, su: BaseLayer) -> JobSummary {
    JobSummary {
        job: j,
        execution_time: rt.spec_coverage(spec_boundaries(j)) as u64,
        suspension_time: su.spec_coverage(spec_boundaries(j)) as u64,
    }
}

/// The summaries by separator, as sequences.
pub open spec fn summaries_view(m: Seq<(JobSeparator, Vec<JobSummary>)>) -> Seq<(JobSeparator, Seq<JobSummary>)> {
    m.map_values(|e: (JobSeparator, Vec<JobSummary>)| (e.0, e.1@))
}

/// `s` filed under separator `sep`: appended to its summaries, or as the
/// first summary of a new separator.
pub open spec fn spec_file(m: Seq<(JobSeparator, Seq<JobSummary>)>, sep: JobSeparator, s: JobSummary) -> Seq<
    (JobSeparator, Seq<JobSummary>),
> {
    let i = find_key(m, sep);
    if i >= 0 {
        m.update(i, (sep, m[i].1.push(s)))
    } else {
        m.push((sep, seq![s]))
    }
}

/// The summaries of `jobs` filed in order.
pub open spec fn spec_file_all(
    m: Seq<(JobSeparator, Seq<JobSummary>)>,
    jobs: Seq<(JobSeparator, Job)>,
    rt: BaseLayer,
    su: BaseLayer,
) -> Seq<(JobSeparator, Seq<JobSummary>)>
    decreases jobs.len(),
{
    if jobs.len() == 0 {
        m
    } else {
        spec_file(
            spec_file_all(m, jobs.drop_last(), rt, su),
            jobs.last().0,
            spec_summary(jobs.last().1, rt, su),
        )
    }
}

proof fn lemma_find_key_view(m: Seq<(JobSeparator, Vec<JobSummary>)>, k: JobSeparator)
    ensures
        find_key(summaries_view(m), k) == find_key(m, k),
    decreases m.len(),
{
    if m.len() > 0 {
        lemma_find_key_view(m.drop_last(), k);
        assert(summaries_view(m).drop_last() =~= summaries_view(m.drop_last()));
    }
}

/// The jobs of a task, summarised by separator.
pub struct TaskJobExtractor {
    ir: Ir,
    job_summaries: Dispatcher<JobSeparator, Vec<JobSummary>>,
}

/// What consuming `event` makes of a task's extractor: the event goes
/// through the intermediate representation, and each job it completes is
/// summarised on the timeline the event leaves.
pub open spec fn spec_consumed(a: TaskJobExtractor, event: TraceEvent, b: TaskJobExtractor) -> bool {
    &&& b.ir().tracker().separations() == a.ir().spec_separations_after(event)
    &&& exists|rt: BaseLayer, su: BaseLayer|
        {
            &&& ExecutionLayer::spec_step(a.ir().tl().rt(), event, rt)
            &&& SuspensionLayer::spec_step(a.ir().tl().su(), event, su)
            &&& b.summaries() == spec_file_all(a.summaries(), a.ir().spec_jobs(event), rt, su)
        }
}

/// A task's extractor as it starts: no summary, no separation, empty
/// layers, the cleaning count and compression threshold at their defaults,
/// and nothing fed to the automata but the start of the trace.
pub open spec fn is_fresh(x: TaskJobExtractor) -> bool {
    &&& x.wf()
    &&& x.summaries().len() == 0
    &&& x.ir().tracker().separations().len() == 0
    &&& x.ir().tracker().matcher().started()
    &&& x.ir().tl().spec_update_before_clean() == crate::ir::timeline::CLEAN_PERIOD
    &&& x.ir().tl().spec_compression_thresh() == crate::ir::timeline::COMPRESSION_DEFAULT_THRESH
    &&& x.ir().tl().rt().plain_seq().len() == 0
    &&& x.ir().tl().rt().blocks().len() == 0
    &&& x.ir().tl().rt().current() is None
    &&& x.ir().tl().su().plain_seq().len() == 0
    &&& x.ir().tl().su().blocks().len() == 0
    &&& x.ir().tl().su().current() is None
}

impl TaskJobExtractor {
    pub closed spec fn ir(&self) -> Ir {
        self.ir
    }

    /// The summaries by separator, separators in the order they came.
    pub closed spec fn summaries(&self) -> Seq<(JobSeparator, Seq<JobSummary>)> {
        summaries_view(self.job_summaries.entries())
    }

    pub closed spec fn wf(&self) -> bool {
        &&& self.ir.wf()
        &&& self.job_summaries.wf()
    }

    pub fn new() -> (r: Self)
        ensures
            r.wf(),
            is_fresh(r),
            r.summaries() == Seq::<(JobSeparator, Seq<JobSummary>)>::empty(),
            forall|e: TraceEvent| r.ir().tl().spec_accepts(e),
    {
        let r = Self { ir: Ir::new(), job_summaries: Dispatcher::new() };
        proof {
            assert(r.summaries() =~= Seq::<(JobSeparator, Seq<JobSummary>)>::empty());
        }
        r
    }

    /// The summaries by separator, separators in the order they came.
    pub fn job_summaries(&self) -> (r: &[(JobSeparator, Vec<JobSummary>)])
        ensures
            summaries_view(r@) == self.summaries(),
    {
        self.job_summaries.items()
    }

    /// Whether the event fits the recorded timeline.
    pub fn accepts(&self, event: &TraceEvent) -> (r: bool)
        requires
            self.wf(),
        ensures
            r == self.ir().tl().spec_accepts(*event),
    {
        self.ir.accepts(event)
    }

    /// Consumes an event: the jobs it completes are summarised and filed
    /// under their separator; the timeline is then cleaned.
    pub fn consume_event(&mut self, event: TraceEvent)
        requires
            old(self).wf(),
            old(self).ir().tl().spec_accepts(event),
        ensures
            final(self).wf(),
            spec_consumed(*old(self), event, *final(self)),
    {
        let mut detected: Vec<(JobSeparator, Job)> = Vec::new();
        self.ir.consume_event(event, &mut detected);
        let ghost rt = self.ir.tl().rt();
        let ghost su = self.ir.tl().su();
        let ghost m0 = self.summaries();
        let ghost tracker1 = self.ir.tracker();
        let mut i: usize = 0;
        proof {
            assert(detected@.take(0) =~= Seq::<(JobSeparator, Job)>::empty());
        }
        while i < detected.len()
            invariant
                0 <= i <= detected@.len(),
                self.ir.wf(),
                self.job_summaries.wf(),
                spec_same(rt, self.ir.tl().rt()),
                spec_same(su, self.ir.tl().su()),
                self.summaries() == spec_file_all(m0, detected@.take(i as int), rt, su),
                self.ir.tracker() == tracker1,
            decreases detected@.len() - i,
        {
            let (sep, job) = detected[i];
            let ghost before = self.job_summaries.entries();
            proof {
                lemma_same_coverage(rt, self.ir.tl().rt(), spec_boundaries(job));
                lemma_same_coverage(su, self.ir.tl().su(), spec_boundaries(job));
            }
            let (exec, susp) = self.ir.job_times(&job);
            let summary = JobSummary::new(job, exec, susp);
            proof {
                lemma_find_key(before, sep);
                lemma_find_key_view(before, sep);
            }
            let v = self.job_summaries.get_or_default(&sep);
            v.push(summary);
            proof {
                let t = detected@.take(i + 1);
                assert(t.drop_last() =~= detected@.take(i as int));
                assert(t.last() == (sep, job));
                let f = find_key(before, sep);
                if f >= 0 {
                    assert(self.summaries() =~= summaries_view(before).update(
                        f,
                        (sep, summaries_view(before)[f].1.push(summary)),
                    ));
                } else {
                    assert(self.summaries() =~= summaries_view(before).push((sep, seq![summary])));
                }
            }
            i += 1;
        }
        proof {
            assert(detected@.take(detected@.len() as int) =~= detected@);
            assert(detected@ == old(self).ir().spec_jobs(event));
        }
        self.ir.clean();
        proof {
            assert(ExecutionLayer::spec_step(old(self).ir().tl().rt(), event, rt));
            assert(SuspensionLayer::spec_step(old(self).ir().tl().su(), event, su));
            assert(self.summaries() == spec_file_all(old(self).summaries(), old(self).ir().spec_jobs(event), rt, su));
        }
    }
}

/// The jobs of every task, and the directory where they are saved.
pub struct JobExtractor {
    output_dir: LimeOutputDirectory,
    task_job_extractors: Dispatcher<TaskId, TaskJobExtractor>,
}

impl JobExtractor {
    /// The extractors, tasks in the order they came.
    pub closed spec fn extractors(&self) -> Seq<(TaskId, TaskJobExtractor)> {
        self.task_job_extractors.entries()
    }

    /// The directory where the jobs are saved.
    pub closed spec fn spec_output_dir(&self) -> LimeOutputDirectory {
        self.output_dir
    }

    pub closed spec fn wf(&self) -> bool {
        &&& self.task_job_extractors.wf()
        &&& forall|i: int|
            0 <= i < self.task_job_extractors.entries().len()
                ==> (#[trigger] self.task_job_extractors.entries()[i]).1.wf()
    }

    pub fn new(output_directory: LimeOutputDirectory) -> (r: Self)
        ensures
            r.wf(),
            r.extractors() == Seq::<(TaskId, TaskJobExtractor)>::empty(),
            r.spec_output_dir() == output_directory,
    {
        Self { output_dir: output_directory, task_job_extractors: Dispatcher::new() }
    }

    pub fn output_dir(&self) -> (r: &LimeOutputDirectory)
        ensures
            *r == self.spec_output_dir(),
    {
        &self.output_dir
    }

    /// The extractors, tasks in the order they came.
    pub fn task_job_extractors(&self) -> (r: &[(TaskId, TaskJobExtractor)])
        ensures
            r@ == self.extractors(),
    {
        self.task_job_extractors.items()
    }

    /// Whether the event of task `task_id` fits the recorded timeline of
    /// the task (always, for a task not seen yet).
    pub fn accepts(&self, task_id: &TaskId, event: &TraceEvent) -> (r: bool)
        requires
            self.wf(),
        ensures
            r == (find_key(self.extractors(), *task_id) >= 0 ==> self.extractors()[find_key(
                self.extractors(),
                *task_id,
            )].1.ir().tl().spec_accepts(*event)),
    {
        proof {
            lemma_find_key(self.task_job_extractors.entries(), *task_id);
        }
        match self.task_job_extractors.get(task_id) {
            Some(e) => e.accepts(event),
            None => true,
        }
    }

    /// Consumes an event of task `task_id`, starting an extractor for a task
    /// not seen yet.
    pub fn consume_event(&mut self, task_id: &TaskId, event: TraceEvent)
        requires
            old(self).wf(),
            find_key(old(self).extractors(), *task_id) >= 0 ==> old(self).extractors()[find_key(
                old(self).extractors(),
                *task_id,
            )].1.ir().tl().spec_accepts(event),
        ensures
            final(self).wf(),
            final(self).spec_output_dir() == old(self).spec_output_dir(),
            final(self).extractors().len() == old(self).extractors().len() + if find_key(
                old(self).extractors(),
                *task_id,
            ) >= 0 {
                0int
            } else {
                1int
            },
            forall|i: int|
                0 <= i < old(self).extractors().len() && i != find_key(old(self).extractors(), *task_id)
                    ==> #[trigger] final(self).extractors()[i] == old(self).extractors()[i],
            ({
                let i = find_key(old(self).extractors(), *task_id);
                let j = if i >= 0 {
                    i
                } else {
                    old(self).extractors().len() as int
                };
                &&& final(self).extractors()[j].0 == *task_id
                &&& i >= 0 ==> spec_consumed(old(self).extractors()[i].1, event, final(self).extractors()[j].1)
                &&& i < 0 ==> exists|fresh: TaskJobExtractor|
                    is_fresh(fresh) && spec_consumed(
                        fresh,
                        event,
                        final(self).extractors()[j].1,
                    )
            }),
    {
        proof {
            lemma_find_key(self.task_job_extractors.entries(), *task_id);
        }
        let e = self.task_job_extractors.get_or_new(task_id, TaskJobExtractor::new);
        e.consume_event(event);
    }

    /// Tells every extractor that the trace ended.
    pub fn end_of_trace(&mut self)
        requires
            old(self).wf(),
        ensures
            final(self).wf(),
            final(self).spec_output_dir() == old(self).spec_output_dir(),
            final(self).extractors().len() == old(self).extractors().len(),
            forall|i: int|
                0 <= i < old(self).extractors().len() ==> (#[trigger] final(self).extractors()[i]).0
                    == old(self).extractors()[i].0 && spec_consumed(
                    old(self).extractors()[i].1,
                    end_of_trace_event(),
                    final(self).extractors()[i].1,
                ),
    {
        let e = TraceEvent { ts: 0, id: ThreadId::new(0, 0), ev: EventData::LimeEndOfTrace };
        let n = self.task_job_extractors.len();
        let mut i: usize = 0;
        while i < n
            invariant
                0 <= i <= n,
                n == old(self).extractors().len(),
                e == end_of_trace_event(),
                self.output_dir == old(self).output_dir,
                self.task_job_extractors.wf(),
                self.task_job_extractors.entries().len() == n,
                forall|j: int|
                    0 <= j < n ==> (#[trigger] self.task_job_extractors.entries()[j]).1.wf(),
                forall|j: int|
                    0 <= j < n ==> (#[trigger] self.task_job_extractors.entries()[j]).0 == old(
                        self,
                    ).extractors()[j].0,
                forall|j: int|
                    0 <= j < i ==> spec_consumed(
                        old(self).extractors()[j].1,
                        e,
                        #[trigger] self.task_job_extractors.entries()[j].1,
                    ),
                forall|j: int|
                    i <= j < n ==> #[trigger] self.task_job_extractors.entries()[j] == old(
                        self,
                    ).extractors()[j],
            decreases n - i,
        {
            let x = self.task_job_extractors.value_at_mut(i);
            x.consume_event(e);
            i += 1;
        }
    }
}

/// The pseudo-event closing a trace.
pub open spec fn end_of_trace_event() -> TraceEvent {
    TraceEvent { ts: 0, id: ThreadId { pid: 0, tgid: 0 }, ev: EventData::LimeEndOfTrace }
}

} // verus!
