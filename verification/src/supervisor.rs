//! Supervision: one session for every scanner that was found, each on its
//! own, and a single way to bring all of them to an end.

use crate::catalog::{DescriptorView, DeviceCatalog, DeviceFilter};
use crate::session::{
    directive_for, fresh_session, lemma_terminal_is_final, session_step, DeviceSession, Directive,
    EventView, NoticeView, SessionConfig, SessionEvent, SessionStatus, SessionStep, SessionView,
    StatusView, StepView,
};
use vstd::prelude::*;

verus! {

/// The sessions of `sessions`, each as a mathematical value.
pub open spec fn session_views(sessions: Seq<DeviceSession>) -> Seq<SessionView> {
    sessions.map_values(|session: DeviceSession| session@)
}

/// The state of a session that has just been made, for any device.
pub open spec fn starting_with(config: SessionConfig) -> spec_fn(DescriptorView) -> SessionView {
    |device: DescriptorView| fresh_session(device, config)
}

/// What a session becomes when it is asked to end.
pub open spec fn cancelled() -> spec_fn(SessionView) -> SessionView {
    |session: SessionView| session_step(session, EventView::Cancel).0
}

/// Telling the session at `index` what happened: that session moves on and
/// answers, every other session stays as it is.
pub open spec fn dispatch_step(sessions: Seq<SessionView>, index: int, event: EventView) -> (
    Seq<SessionView>,
    StepView,
)
    recommends
        0 <= index < sessions.len(),
{
    let (after, step) = session_step(sessions[index], event);
    (sessions.update(index, after), step)
}

/// Asking every session to end.
pub open spec fn stop_all(sessions: Seq<SessionView>) -> Seq<SessionView> {
    sessions.map_values(cancelled())
}

/// Tells the indices of the sessions that have failed from the others.
pub open spec fn has_failed(sessions: Seq<SessionView>) -> spec_fn(int) -> bool {
    |index: int| 0 <= index < sessions.len() && sessions[index].status is Failed
}

/// Every session is over.
pub open spec fn all_over(sessions: Seq<SessionView>) -> bool {
    forall|i: int| 0 <= i < sessions.len() ==> (#[trigger] sessions[i]).status.is_terminal()
}

/// A series of events, each for the session at the index it comes with,
/// taken one after another: the sessions at the end, and every notice
/// along the way. An event for a session that does not exist is skipped.
pub open spec fn dispatch_run(sessions: Seq<SessionView>, inputs: Seq<(int, EventView)>) -> (
    Seq<SessionView>,
    Seq<NoticeView>,
)
    decreases inputs.len(),
{
    if inputs.len() == 0 {
        (sessions, Seq::empty())
    } else {
        let (before, notices) = dispatch_run(sessions, inputs.drop_last());
        let (index, event) = inputs.last();
        if 0 <= index < before.len() {
            let (after, step) = dispatch_step(before, index, event);
            (after, notices + step.notices)
        } else {
            (before, notices)
        }
    }
}

/// Sessions do not touch each other: what happens to one leaves every
/// other session as it was, so the other answers its own events as if
/// nothing had happened.
pub proof fn lemma_sessions_are_isolated(
    sessions: Seq<SessionView>,
    index: int,
    event: EventView,
    other: int,
    other_event: EventView,
)
    requires
        0 <= index < sessions.len(),
        0 <= other < sessions.len(),
        other != index,
    ensures
        dispatch_step(sessions, index, event).0[other] == sessions[other],
        dispatch_step(dispatch_step(sessions, index, event).0, other, other_event).1 == dispatch_step(
            sessions,
            other,
            other_event,
        ).1,
        dispatch_step(dispatch_step(sessions, index, event).0, other, other_event).0 == dispatch_step(
            dispatch_step(sessions, other, other_event).0,
            index,
            event,
        ).0,
{
    let one = dispatch_step(sessions, index, event).0;
    let two = dispatch_step(sessions, other, other_event).0;
    assert(dispatch_step(one, other, other_event).0 =~= dispatch_step(two, index, event).0);
}

/// Stopping ends every session: one that had not failed is closed, one
/// that had failed stays failed, and for each the next thing to do is to
/// halt.
pub proof fn lemma_stop_ends_every_session(sessions: Seq<SessionView>)
    ensures
        stop_all(sessions).len() == sessions.len(),
        all_over(stop_all(sessions)),
        forall|i: int|
            0 <= i < sessions.len() ==> {
                let before = #[trigger] sessions[i];
                let after = stop_all(sessions)[i];
                &&& after.status == (if before.status is Failed {
                    before.status
                } else {
                    StatusView::Closed
                })
                &&& after == (SessionView { status: after.status, ..before })
                &&& directive_for(after) == Directive::Halt
            },
{
}

/// Once every session is over, nothing is passed on any more: whatever
/// events still arrive, for whichever session, the sessions stay as they
/// are and not one notice comes of it.
pub proof fn lemma_silent_once_all_over(sessions: Seq<SessionView>, inputs: Seq<(int, EventView)>)
    requires
        all_over(sessions),
    ensures
        dispatch_run(sessions, inputs) == (sessions, Seq::<NoticeView>::empty()),
    decreases inputs.len(),
{
    if inputs.len() > 0 {
        lemma_silent_once_all_over(sessions, inputs.drop_last());
        let (index, event) = inputs.last();
        if 0 <= index < sessions.len() {
            lemma_terminal_is_final(sessions[index], event);
            assert(sessions.update(index, sessions[index]) =~= sessions);
            let nothing = Seq::<NoticeView>::empty();
            assert(nothing + nothing =~= nothing);
        }
    }
}

/// After a stop no barcode is passed on any more, whatever reads were still
/// under way when it came.
pub proof fn lemma_silent_after_stop(sessions: Seq<SessionView>, inputs: Seq<(int, EventView)>)
    ensures
        dispatch_run(stop_all(sessions), inputs) == (
            stop_all(sessions),
            Seq::<NoticeView>::empty(),
        ),
{
    lemma_stop_ends_every_session(sessions);
    lemma_silent_once_all_over(stop_all(sessions), inputs);
}

/// Runs the sessions of the scanners that were found.
pub struct Supervisor {
    sessions: Vec<DeviceSession>,
}

impl View for Supervisor {
    type V = Seq<SessionView>;

    closed spec fn view(&self) -> Seq<SessionView> {
        session_views(self.sessions@)
    }
}

impl Supervisor {
    /// Looks through `catalog` once and makes a session for every device
    /// that passes `filter`, in the catalog's order. Each session has yet
    /// to open its device.
    pub fn start(
        catalog: &DeviceCatalog,
        filter: DeviceFilter,
        config: SessionConfig,
    ) -> (supervisor: Self)
        ensures
            supervisor@ == catalog@.filter(filter.accepts()).map_values(starting_with(config)),
    {
        let found = catalog.enumerate(filter);
        let ghost devices = catalog@.filter(filter.accepts());
        let ghost wanted = devices.map_values(starting_with(config));
        let mut sessions: Vec<DeviceSession> = Vec::new();
        assert(session_views(sessions@) =~= wanted.take(0));
        for descriptor in it: found
            invariant
                it.seq() == found@,
                crate::catalog::descriptor_views(found@) == devices,
                wanted == devices.map_values(starting_with(config)),
                session_views(sessions@) == wanted.take(it.index()),
        {
            let ghost made = sessions@;
            let session = DeviceSession::new(descriptor, config);
            assert(descriptor@ == devices[it.index()]);
            sessions.push(session);
            assert(session_views(sessions@) =~= session_views(made).push(session@));
            assert(wanted.take(it.index() + 1) =~= wanted.take(it.index()).push(
                wanted[it.index()],
            ));
        }
        assert(wanted.take(found@.len() as int) =~= wanted);
        Supervisor { sessions }
    }

    /// How many sessions there are.
    pub fn session_count(&self) -> (n: usize)
        ensures
            n == self@.len(),
    {
        self.sessions.len()
    }

    /// The session at `index`, if there is one.
    pub fn session(&self, index: usize) -> (session: Option<&DeviceSession>)
        ensures
            match session {
                Some(found) => index < self@.len() && found@ == self@[index as int],
                None => index >= self@.len(),
            },
    {
        if index < self.sessions.len() {
            Some(&self.sessions[index])
        } else {
            None
        }
    }

    /// What to do next for the session at `index`, if there is one.
    pub fn directive(&self, index: usize) -> (next: Option<Directive>)
        ensures
            index < self@.len() ==> next == Some(directive_for(self@[index as int])),
            index >= self@.len() ==> next is None,
    {
        if index < self.sessions.len() {
            Some(self.sessions[index].directive())
        } else {
            None
        }
    }

    /// Tells whether every session is over, so that no device is read any
    /// more.
    pub fn is_finished(&self) -> (finished: bool)
        ensures
            finished == all_over(self@),
    {
        let mut i: usize = 0;
        while i < self.sessions.len()
            invariant
                i <= self.sessions.len(),
                forall|k: int| 0 <= k < i ==> (#[trigger] self@[k]).status.is_terminal(),
            decreases self.sessions.len() - i,
        {
            if !self.sessions[i].status().is_terminal() {
                assert(!self@[i as int].status.is_terminal());
                return false;
            }
            i = i + 1;
        }
        true
    }

    /// The sessions that have failed, by index, in ascending order.
    pub fn failed_sessions(&self) -> (failed: Vec<usize>)
        ensures
            failed@.map_values(|index: usize| index as int) == Seq::new(
                self@.len(),
                |index: int| index,
            ).filter(has_failed(self@)),
    {
        let ghost indices = Seq::new(self@.len(), |index: int| index);
        let mut failed: Vec<usize> = Vec::new();
        let mut i: usize = 0;
        proof {
            reveal(Seq::filter);
            assert(indices.take(0) =~= Seq::empty());
            assert(failed@.map_values(|index: usize| index as int) =~= Seq::empty());
        }
        while i < self.sessions.len()
            invariant
                i <= self.sessions.len(),
                indices == Seq::new(self@.len(), |index: int| index),
                failed@.map_values(|index: usize| index as int) == indices.take(i as int).filter(
                    has_failed(self@),
                ),
            decreases self.sessions.len() - i,
        {
            let ghost seen = indices.take(i as int);
            let ghost kept = failed@;
            proof {
                assert(indices.take(i + 1) =~= seen.push(i as int));
                seen.lemma_filter_push(i as int, has_failed(self@));
            }
            let is_failed = match self.sessions[i].status() {
                SessionStatus::Failed(_) => true,
                _ => false,
            };
            if is_failed {
                failed.push(i);
                assert(failed@.map_values(|index: usize| index as int) =~= kept.map_values(
                    |index: usize| index as int,
                ).push(i as int));
            }
            i = i + 1;
        }
        assert(indices.take(i as int) =~= indices);
        failed
    }

    /// Tells the session at `index` what happened to its device and
    /// returns its answer. No other session is touched. Without a session
    /// at `index` nothing happens.
    pub fn dispatch(&mut self, index: usize, event: SessionEvent<'_>) -> (out: Option<SessionStep>)
        ensures
            match out {
                Some(step) => {
                    &&& index < old(self)@.len()
                    &&& final(self)@ == dispatch_step(old(self)@, index as int, event@).0
                    &&& step@ == dispatch_step(old(self)@, index as int, event@).1
                },
                None => index >= old(self)@.len() && final(self)@ == old(self)@,
            },
    {
        if index < self.sessions.len() {
            let ghost before = self.sessions@;
            let step = self.sessions[index].step(event);
            assert(session_views(self.sessions@) =~= session_views(before).update(
                index as int,
                self.sessions@[index as int]@,
            ));
            Some(step)
        } else {
            None
        }
    }

    /// Asks every session to end. Sessions that were starting or reading
    /// are closed; sessions that had failed stay failed.
    pub fn stop(&mut self)
        ensures
            final(self)@ == stop_all(old(self)@),
    {
        let ghost before = self@;
        let n: usize = self.sessions.len();
        let mut i: usize = 0;
        while i < n
            invariant
                i <= n,
                n == before.len(),
                self@.len() == n,
                forall|k: int| 0 <= k < i ==> self@[k] == #[trigger] stop_all(before)[k],
                forall|k: int| i <= k < n ==> self@[k] == #[trigger] before[k],
            decreases n - i,
        {
            let ghost current = self.sessions@;
            let _ = self.sessions[i].step(SessionEvent::Cancel);
            assert(session_views(self.sessions@) =~= session_views(current).update(
                i as int,
                self.sessions@[i as int]@,
            ));
            i = i + 1;
        }
        assert(self@ =~= stop_all(before));
    }
}

} // verus!
