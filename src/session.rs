//! The decisions of a scan session. The worker that runs a session performs
//! each action on the device, the cancellation flag or the frame collection,
//! and hands back what came of it; the session answers with the next action.
//! Cancellation is polled once per frame, after the frame is delivered.
use vstd::prelude::*;
use crate::ledger::ScanEntry;
use crate::normalize::{FrameError, NormalizedFrame};

verus! {

/// Why a session ended.
#[derive(Debug, Clone, Copy, PartialEq, Eq, Structural)]
pub enum ScanEnd {
    /// The cancellation flag was found set.
    Cancelled,
    /// The device would not start another frame.
    NoMoreFrames,
    /// Reading a frame's bytes failed.
    ReadFailed,
    /// Reading a frame's parameters failed.
    ParametersFailed,
    /// A frame's bytes did not make an image.
    BadFrame(FrameError),
}

/// What a session waits for.
#[derive(Debug, Clone, Copy, PartialEq, Eq, Structural)]
pub enum ScanPhase {
    AwaitFrame,
    AwaitParameters,
    AwaitNormalize,
    AwaitDelivery,
    AwaitCancelCheck,
    AwaitNextStart,
    Finished(ScanEnd),
}

/// What the worker does next.
#[derive(Debug, Clone, Copy, PartialEq, Eq, Structural)]
pub enum ScanAction {
    /// Read the whole of the current frame's bytes.
    ReadFrame,
    /// Read the current frame's parameters.
    ReadParameters,
    /// Turn the frame's bytes into pixels.
    Normalize,
    /// Append the frame to the collection and ask for a redraw.
    Deliver,
    /// Look at the cancellation flag.
    CheckCancel,
    /// Ask the device to start the next frame.
    StartNext,
    /// End the session.
    Stop(ScanEnd),
}

/// What came of the last action.
#[derive(Debug, Clone, Copy, PartialEq, Eq, Structural)]
pub enum ScanEvent {
    FrameRead(bool),
    ParametersRead(bool),
    Normalized(Option<FrameError>),
    Delivered,
    CancelChecked(bool),
    NextStarted(bool),
}

/// A scan session: what it waits for, and how many frames it delivered.
#[derive(Debug, Clone, Copy, PartialEq, Eq, Structural)]
pub struct ScanSession {
    pub phase: ScanPhase,
    pub frames_delivered: usize,
}

/// The action that a phase waits on.
pub open spec fn expected_action(phase: ScanPhase) -> ScanAction {
    match phase {
        ScanPhase::AwaitFrame => ScanAction::ReadFrame,
        ScanPhase::AwaitParameters => ScanAction::ReadParameters,
        ScanPhase::AwaitNormalize => ScanAction::Normalize,
        ScanPhase::AwaitDelivery => ScanAction::Deliver,
        ScanPhase::AwaitCancelCheck => ScanAction::CheckCancel,
        ScanPhase::AwaitNextStart => ScanAction::StartNext,
        ScanPhase::Finished(end) => ScanAction::Stop(end),
    }
}

/// The phase after an event. An event that does not answer the action the
/// phase waits on changes nothing; a finished session stays finished.
pub open spec fn next_phase(phase: ScanPhase, event: ScanEvent) -> ScanPhase {
    match (phase, event) {
        (ScanPhase::AwaitFrame, ScanEvent::FrameRead(ok)) => if ok {
            ScanPhase::AwaitParameters
        } else {
            ScanPhase::Finished(ScanEnd::ReadFailed)
        },
        (ScanPhase::AwaitParameters, ScanEvent::ParametersRead(ok)) => if ok {
            ScanPhase::AwaitNormalize
        } else {
            ScanPhase::Finished(ScanEnd::ParametersFailed)
        },
        (ScanPhase::AwaitNormalize, ScanEvent::Normalized(err)) => match err {
            None => ScanPhase::AwaitDelivery,
            Some(e) => ScanPhase::Finished(ScanEnd::BadFrame(e)),
        },
        (ScanPhase::AwaitDelivery, ScanEvent::Delivered) => ScanPhase::AwaitCancelCheck,
        (ScanPhase::AwaitCancelCheck, ScanEvent::CancelChecked(cancelled)) => if cancelled {
            ScanPhase::Finished(ScanEnd::Cancelled)
        } else {
            ScanPhase::AwaitNextStart
        },
        (ScanPhase::AwaitNextStart, ScanEvent::NextStarted(ok)) => if ok {
            ScanPhase::AwaitFrame
        } else {
            ScanPhase::Finished(ScanEnd::NoMoreFrames)
        },
        _ => phase,
    }
}

/// The session after an event: its next phase, and one more frame delivered
/// where the event is the delivery the session waited on.
pub open spec fn next_session(s: ScanSession, event: ScanEvent) -> ScanSession {
    ScanSession {
        phase: next_phase(s.phase, event),
        frames_delivered: if s.phase == ScanPhase::AwaitDelivery && event == ScanEvent::Delivered
            && s.frames_delivered < usize::MAX {
            (s.frames_delivered + 1) as usize
        } else {
            s.frames_delivered
        },
    }
}

/// The session after a run of events.
pub open spec fn run_session(s: ScanSession, events: Seq<ScanEvent>) -> ScanSession
    decreases events.len(),
{
    if events.len() == 0 {
        s
    } else {
        next_session(run_session(s, events.drop_last()), events.last())
    }
}

impl ScanSession {
    /// A session on a device that has just started its first frame.
    pub fn start() -> (r: (ScanSession, ScanAction))
        ensures
            r.0 == (ScanSession { phase: ScanPhase::AwaitFrame, frames_delivered: 0 }),
            r.1 == ScanAction::ReadFrame,
    {
        (ScanSession { phase: ScanPhase::AwaitFrame, frames_delivered: 0 }, ScanAction::ReadFrame)
    }

    /// Takes in what came of the last action, and gives the next one.
    pub fn step(&mut self, event: ScanEvent) -> (r: ScanAction)
        ensures
            *final(self) == next_session(*old(self), event),
            r == expected_action(final(self).phase),
    {
        let delivered = match (self.phase, event) {
            (ScanPhase::AwaitDelivery, ScanEvent::Delivered) => true,
            _ => false,
        };
        if delivered && self.frames_delivered < usize::MAX {
            self.frames_delivered = self.frames_delivered + 1;
        }
        self.phase = match (self.phase, event) {
            (ScanPhase::AwaitFrame, ScanEvent::FrameRead(ok)) => if ok {
                ScanPhase::AwaitParameters
            } else {
                ScanPhase::Finished(ScanEnd::ReadFailed)
            },
            (ScanPhase::AwaitParameters, ScanEvent::ParametersRead(ok)) => if ok {
                ScanPhase::AwaitNormalize
            } else {
                ScanPhase::Finished(ScanEnd::ParametersFailed)
            },
            (ScanPhase::AwaitNormalize, ScanEvent::Normalized(err)) => match err {
                None => ScanPhase::AwaitDelivery,
                Some(e) => ScanPhase::Finished(ScanEnd::BadFrame(e)),
            },
            (ScanPhase::AwaitDelivery, ScanEvent::Delivered) => ScanPhase::AwaitCancelCheck,
            (ScanPhase::AwaitCancelCheck, ScanEvent::CancelChecked(cancelled)) => if cancelled {
                ScanPhase::Finished(ScanEnd::Cancelled)
            } else {
                ScanPhase::AwaitNextStart
            },
            (ScanPhase::AwaitNextStart, ScanEvent::NextStarted(ok)) => if ok {
                ScanPhase::AwaitFrame
            } else {
                ScanPhase::Finished(ScanEnd::NoMoreFrames)
            },
            (phase, _) => phase,
        };
        self.action()
    }

    /// The action the session waits on.
    pub fn action(&self) -> (r: ScanAction)
        ensures
            r == expected_action(self.phase),
    {
        match self.phase {
            ScanPhase::AwaitFrame => ScanAction::ReadFrame,
            ScanPhase::AwaitParameters => ScanAction::ReadParameters,
            ScanPhase::AwaitNormalize => ScanAction::Normalize,
            ScanPhase::AwaitDelivery => ScanAction::Deliver,
            ScanPhase::AwaitCancelCheck => ScanAction::CheckCancel,
            ScanPhase::AwaitNextStart => ScanAction::StartNext,
            ScanPhase::Finished(end) => ScanAction::Stop(end),
        }
    }
}

/// Once a session has found the cancellation flag set, or ended otherwise,
/// nothing that follows reads, delivers or starts a frame: it delivers no
/// more frames and only asks to stop.
pub proof fn lemma_finished_session_is_final(s: ScanSession, events: Seq<ScanEvent>)
    requires
        s.phase is Finished,
    ensures
        run_session(s, events) == s,
        expected_action(run_session(s, events).phase) == ScanAction::Stop(
            s.phase->Finished_0,
        ),
    decreases events.len(),
{
    if events.len() > 0 {
        lemma_finished_session_is_final(s, events.drop_last());
    }
}

/// A frame is delivered only when the session waits on a delivery, that is
/// after its bytes and parameters were read and turned into pixels; a
/// cancellation found set ends the session with the frames delivered so far.
pub proof fn lemma_delivery_follows_whole_frame(s: ScanSession, event: ScanEvent)
    ensures
        next_session(s, event).frames_delivered != s.frames_delivered ==> s.phase
            == ScanPhase::AwaitDelivery && event == ScanEvent::Delivered,
        s.phase == ScanPhase::AwaitCancelCheck && event == ScanEvent::CancelChecked(true) ==> next_session(s, event)
            == (ScanSession {
            phase: ScanPhase::Finished(ScanEnd::Cancelled),
            frames_delivered: s.frames_delivered,
        }),
{
}

/// A new page of the collection: the frame's pixels and size, not chosen
/// as a document page, not saved.
pub fn new_scan_entry<H>(frame: NormalizedFrame, texture_handle: H) -> (r: ScanEntry<H>)
    ensures
        r.pixels@ == frame.pixels@,
        r.width == frame.width,
        r.height == frame.height,
        r.texture_handle == texture_handle,
        r.selected_as_page is None,
        !r.saved_to_file,
{
    ScanEntry {
        pixels: frame.pixels,
        width: frame.width,
        height: frame.height,
        texture_handle,
        selected_as_page: None,
        saved_to_file: false,
    }
}

/// Running two runs of events one after the other is running them joined.
pub proof fn lemma_run_session_append(s: ScanSession, a: Seq<ScanEvent>, b: Seq<ScanEvent>)
    ensures
        run_session(s, a + b) == run_session(run_session(s, a), b),
    decreases b.len(),
{
    if b.len() == 0 {
        assert(a + b =~= a);
    } else {
        lemma_run_session_append(s, a, b.drop_last());
        assert((a + b).drop_last() =~= a + b.drop_last());
        assert((a + b).last() == b.last());
    }
}

/// A cancellation seen after a frame ends the session with the frames
/// delivered before it, whatever events follow: no frame is read, delivered
/// or counted afterwards.
pub proof fn lemma_cancel_keeps_delivered_frames(
    s: ScanSession,
    before: Seq<ScanEvent>,
    after: Seq<ScanEvent>,
)
    requires
        run_session(s, before).phase == ScanPhase::AwaitCancelCheck,
    ensures
        ({
            let end = run_session(s, before + seq![ScanEvent::CancelChecked(true)] + after);
            &&& end.phase == ScanPhase::Finished(ScanEnd::Cancelled)
            &&& end.frames_delivered == run_session(s, before).frames_delivered
            &&& expected_action(end.phase) == ScanAction::Stop(ScanEnd::Cancelled)
        }),
{
    let mid = run_session(s, before);
    let cancelled = next_session(mid, ScanEvent::CancelChecked(true));
    lemma_run_session_append(s, before, seq![ScanEvent::CancelChecked(true)]);
    assert(run_session(mid, seq![ScanEvent::CancelChecked(true)]) == cancelled) by {
        let one = seq![ScanEvent::CancelChecked(true)];
        assert(one.drop_last() =~= Seq::<ScanEvent>::empty());
        assert(run_session(mid, one.drop_last()) == mid);
        assert(one.last() == ScanEvent::CancelChecked(true));
    }
    lemma_run_session_append(s, before + seq![ScanEvent::CancelChecked(true)], after);
    lemma_finished_session_is_final(cancelled, after);
}

impl ScanSession {
    /// Appends the frame the session waits to deliver to the collection, and
    /// gives the next action.
    pub fn deliver_frame<H>(
        &mut self,
        pages: &mut Vec<ScanEntry<H>>,
        frame: NormalizedFrame,
        texture_handle: H,
    ) -> (r: ScanAction)
        requires
            old(self).phase == ScanPhase::AwaitDelivery,
            old(self).frames_delivered < usize::MAX,
        ensures
            *final(self) == next_session(*old(self), ScanEvent::Delivered),
            final(self).frames_delivered == old(self).frames_delivered + 1,
            r == expected_action(final(self).phase),
            final(pages)@.len() == old(pages)@.len() + 1,
            final(pages)@.take(old(pages)@.len() as int) == old(pages)@,
            ({
                let e = final(pages)@.last();
                &&& e.pixels@ == frame.pixels@
                &&& e.width == frame.width
                &&& e.height == frame.height
                &&& e.texture_handle == texture_handle
                &&& e.selected_as_page is None
                &&& !e.saved_to_file
            }),
    {
        let ghost before = pages@;
        pages.push(new_scan_entry(frame, texture_handle));
        assert(pages@.take(before.len() as int) =~= before);
        self.step(ScanEvent::Delivered)
    }
}

/// Whether the device chosen now must be opened: it is not the one opened last.
pub fn needs_open(prev_selected: Option<usize>, selected: usize) -> (r: bool)
    ensures
        r == (prev_selected != Some(selected)),
{
    match prev_selected {
        Some(prev) => prev != selected,
        None => true,
    }
}

} // verus!
