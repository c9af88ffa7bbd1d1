//! Runs a signature automaton over a stream of events, remembering where the
//! current match started.

use crate::events::TraceEvent;
use vstd::prelude::*;

use super::{JobSeparation, JobSeparator, Signature};

verus! {

/// Outcome of feeding one event to an automaton.
#[derive(PartialEq, Eq, Debug, Clone, Copy, Structural)]
pub enum AResult {
    /// The events at positions `start..end` match the signature.
    Accept { start: usize, end: usize },
    /// The event matches no prefix of the signature.
    Reject,
    /// A match that began at position `start` is in progress.
    Matching { start: usize },
}

/// An automaton running a signature, with the position of the first event
/// of the current match.
pub struct Dfa<S> {
    start: Option<usize>,
    curr_state: S,
    matching: bool,
    /// The events fed since the current match started.
    history: Ghost<Seq<TraceEvent>>,
}

impl<S: Signature> Dfa<S> {
    pub closed spec fn start_pos(&self) -> Option<usize> {
        self.start
    }

    pub closed spec fn state(&self) -> S {
        self.curr_state
    }

    /// The events fed since the current match started.
    pub closed spec fn matched(&self) -> Seq<TraceEvent> {
        self.history@
    }

    pub closed spec fn wf(&self) -> bool {
        &&& self.matching == (self.start is Some)
        &&& (self.start is None <==> self.history@.len() == 0)
        &&& (self.start is None ==> self.curr_state == S::spec_initial())
        &&& !self.curr_state.spec_is_rejection()
        &&& self.curr_state.spec_history_inv(self.history@)
    }

    /// Whether feeding `e` makes the automaton restart from its initial state.
    pub open spec fn spec_restarts(&self, e: TraceEvent) -> bool {
        self.state().spec_next(e).spec_is_rejection()
    }

    /// The state reached by feeding `e`, after a restart if needed.
    pub open spec fn spec_step_state(&self, e: TraceEvent) -> S {
        if self.spec_restarts(e) {
            S::spec_initial().spec_next(e)
        } else {
            self.state().spec_next(e)
        }
    }

    /// Where the match that `e` extends or opens at position `pos` starts.
    pub open spec fn spec_step_start(&self, e: TraceEvent, pos: usize) -> usize {
        if self.spec_restarts(e) || self.start_pos() is None {
            pos
        } else {
            self.start_pos()->0
        }
    }

    /// The outcome of feeding `e` at position `pos`.
    pub open spec fn spec_step_result(&self, e: TraceEvent, pos: usize) -> AResult {
        let t = self.spec_step_state(e);
        if t.spec_is_rejection() {
            AResult::Reject
        } else if t.spec_is_terminal() {
            AResult::Accept { start: self.spec_step_start(e, pos), end: (pos + 1) as usize }
        } else {
            AResult::Matching { start: self.spec_step_start(e, pos) }
        }
    }

    /// The events of the match once `e` has been fed.
    pub open spec fn spec_step_matched(&self, e: TraceEvent) -> Seq<TraceEvent> {
        if self.spec_restarts(e) {
            seq![e]
        } else {
            self.matched().push(e)
        }
    }

    /// A fresh automaton: no match started, in the initial state.
    pub open spec fn is_fresh(&self) -> bool {
        &&& self.start_pos() is None
        &&& self.state() == S::spec_initial()
    }

    /// The automaton, fresh, was then fed `e` at position 0.
    pub open spec fn fed_first(&self, e: TraceEvent) -> bool {
        let t = S::spec_initial().spec_next(e);
        if t.spec_is_rejection() || t.spec_is_terminal() {
            &&& self.start_pos() is None
            &&& self.state() == S::spec_initial()
            &&& self.matched() == Seq::<TraceEvent>::empty()
        } else {
            &&& self.start_pos() == Some(0usize)
            &&& self.state() == t
            &&& self.matched() == seq![e]
        }
    }

    /// Feeding `e` at position 0 to a fresh automaton.
    pub proof fn lemma_fed_first(&self, d0: Self, e: TraceEvent)
        requires
            d0.wf(),
            d0.is_fresh(),
            self.step_post(d0, e, 0),
        ensures
            self.fed_first(e),
    {
        assert(d0.matched().len() == 0);
        assert(d0.matched().push(e) =~= seq![e]);
    }

    pub fn new() -> (r: Self)
        ensures
            r.wf(),
            r.start_pos() is None,
            r.state() == S::spec_initial(),
            r.matched() == Seq::<TraceEvent>::empty(),
            !r.is_matching_spec(),
    {
        proof {
            S::lemma_initial_inv();
        }
        Self {
            start: None,
            curr_state: S::initial_state(),
            matching: false,
            history: Ghost(Seq::empty()),
        }
    }

    pub closed spec fn is_matching_spec(&self) -> bool {
        self.matching
    }

    pub proof fn lemma_matching(&self)
        requires
            self.wf(),
        ensures
            self.is_matching_spec() == (self.start_pos() is Some),
            self.start_pos() is None <==> self.matched().len() == 0,
            self.start_pos() is None ==> self.state() == S::spec_initial(),
    {
    }

    fn reset(&mut self)
        ensures
            final(self).wf(),
            final(self).start_pos() is None,
            final(self).state() == S::spec_initial(),
            final(self).matched() == Seq::<TraceEvent>::empty(),
    {
        proof {
            S::lemma_initial_inv();
        }
        self.start = None;
        self.curr_state = S::initial_state();
        self.matching = false;
        self.history = Ghost(Seq::empty());
    }

    fn job_separator(&self, matched_events: &[TraceEvent]) -> (r: JobSeparator)
        requires
            S::spec_extractable(matched_events@),
        ensures
            r == S::spec_separator(matched_events@),
    {
        self.curr_state.job_separator(matched_events)
    }

    fn job_separation(&self, matched_events: &[TraceEvent]) -> (r: JobSeparation)
        requires
            S::spec_extractable(matched_events@),
        ensures
            r == S::spec_separation(matched_events@),
    {
        self.curr_state.job_separation(matched_events)
    }

    /// Feeds the event at position `pos` of `events`. On a match, the
    /// separator and the separation of the matched events are appended to
    /// `extracted`.
    pub fn update(
        &mut self,
        events: &[TraceEvent],
        pos: usize,
        extracted: &mut Vec<(JobSeparator, JobSeparation)>,
    ) -> (r: AResult)
        requires
            old(self).wf(),
            pos < events@.len(),
            old(self).start_pos() matches Some(s) ==> s <= pos && events@.subrange(s as int, pos as int)
                == old(self).matched(),
        ensures
            final(self).wf(),
            r == old(self).spec_step_result(events@[pos as int], pos),
            final(self).step_post(*old(self), events@[pos as int], pos),
            match r {
                AResult::Accept { start, end } => {
                    &&& start <= pos < end == pos + 1
                    &&& S::spec_extractable(events@.subrange(start as int, end as int))
                    &&& final(extracted)@ == old(extracted)@.push(
                        (
                            S::spec_separator(events@.subrange(start as int, end as int)),
                            S::spec_separation(events@.subrange(start as int, end as int)),
                        ),
                    )
                },
                _ => final(extracted)@ == old(extracted)@,
            },
            final(self).start_pos() matches Some(s) ==> s <= pos && events@.subrange(s as int, pos + 1)
                == final(self).matched(),
    {
        let event = &events[pos];
        let ghost pre = *self;
        let res = self.update_no_extract(event, pos);

        if let AResult::Accept { start, end } = res {
            proof {
                let m = pre.spec_step_matched(*event);
                if pre.spec_restarts(*event) {
                    assert(events@.subrange(start as int, end as int) =~= m);
                } else if pre.start_pos() is None {
                    assert(pre.matched().len() == 0);
                    assert(events@.subrange(start as int, end as int) =~= m);
                } else {
                    assert(events@.subrange(start as int, end as int) =~= m);
                }
            }
            let matched_events = &events[start..end];
            let separator = self.job_separator(matched_events);
            let separation = self.job_separation(matched_events);

            extracted.push((separator, separation));
        } else {
            proof {
                if let AResult::Matching { start } = res {
                    let m = pre.spec_step_matched(*event);
                    if pre.spec_restarts(*event) {
                        assert(events@.subrange(start as int, pos + 1) =~= m);
                    } else if pre.start_pos() is None {
                        assert(pre.matched().len() == 0);
                        assert(events@.subrange(start as int, pos + 1) =~= m);
                    } else {
                        assert(events@.subrange(start as int, pos + 1) =~= m);
                    }
                }
            }
        }

        res
    }

    /// How the automaton after feeding `e` at `pos` relates to `old`.
    pub open spec fn step_post(&self, old: Self, e: TraceEvent, pos: usize) -> bool {
        let t = old.spec_step_state(e);
        if t.spec_is_rejection() || t.spec_is_terminal() {
            &&& self.start_pos() is None
            &&& self.state() == S::spec_initial()
            &&& self.matched() == Seq::<TraceEvent>::empty()
            &&& (t.spec_is_terminal() && !t.spec_is_rejection() ==> S::spec_extractable(
                old.spec_step_matched(e),
            ))
        } else {
            &&& self.start_pos() == Some(old.spec_step_start(e, pos))
            &&& self.state() == t
            &&& self.matched() == old.spec_step_matched(e)
        }
    }

    /// Feeds the event at position `pos` without extracting anything.
    pub fn update_no_extract(&mut self, event: &TraceEvent, pos: usize) -> (r: AResult)
        requires
            old(self).wf(),
            pos < usize::MAX,
        ensures
            final(self).wf(),
            r == old(self).spec_step_result(*event, pos),
            final(self).step_post(*old(self), *event, pos),
            r matches AResult::Accept { start, end } ==> S::spec_extractable(
                old(self).spec_step_matched(*event),
            ),
    {
        let ghost pre = *self;
        let mut new_state = self.curr_state.next(event);

        if new_state.is_rejection_state() {
            self.reset();

            new_state = self.curr_state.next(event);

            if new_state.is_rejection_state() {
                return AResult::Reject;
            }
        };
        proof {
            S::lemma_step_inv(self.curr_state, self.history@, *event);
        }
        self.curr_state = new_state;
        self.history = Ghost(self.history@.push(*event));

        if self.start.is_none() {
            self.start = Some(pos);
        }
        let start = match self.start {
            Some(s) => s,
            None => pos,
        };

        if self.curr_state.is_terminal_state() {
            proof {
                S::lemma_terminal_extractable(self.curr_state, self.history@);
                if pre.spec_restarts(*event) {
                    assert(self.history@ =~= seq![*event]);
                }
            }
            self.reset();

            return AResult::Accept { start, end: pos + 1 };
        }
        proof {
            if pre.spec_restarts(*event) {
                assert(self.history@ =~= seq![*event]);
            }
        }
        self.matching = true;

        AResult::Matching { start }
    }

    pub fn is_matching(&self) -> (r: bool)
        ensures
            r == self.is_matching_spec(),
    {
        self.matching
    }
}

} // verus!
