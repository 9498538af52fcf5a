use slickscan::commonvals::ValueCategory;
use slickscan::normalize::{normalize_frame, FrameError, FrameFormat};
use slickscan::ledger::ScanEntry;
use slickscan::session::{
    needs_open, new_scan_entry, ScanAction, ScanEnd, ScanEvent, ScanPhase, ScanSession,
};

fn deliver_one(s: &mut ScanSession) -> ScanAction {
    assert_eq!(s.step(ScanEvent::FrameRead(true)), ScanAction::ReadParameters);
    assert_eq!(s.step(ScanEvent::ParametersRead(true)), ScanAction::Normalize);
    assert_eq!(s.step(ScanEvent::Normalized(None)), ScanAction::Deliver);
    s.step(ScanEvent::Delivered)
}

#[test]
fn session_runs_frame_after_frame() {
    let (mut s, a) = ScanSession::start();
    assert_eq!(a, ScanAction::ReadFrame);
    assert_eq!(deliver_one(&mut s), ScanAction::CheckCancel);
    assert_eq!(s.step(ScanEvent::CancelChecked(false)), ScanAction::StartNext);
    assert_eq!(s.step(ScanEvent::NextStarted(true)), ScanAction::ReadFrame);
    assert_eq!(deliver_one(&mut s), ScanAction::CheckCancel);
    assert_eq!(s.step(ScanEvent::CancelChecked(false)), ScanAction::StartNext);
    assert_eq!(s.step(ScanEvent::NextStarted(false)), ScanAction::Stop(ScanEnd::NoMoreFrames));
    assert_eq!(s.frames_delivered, 2);
}

#[test]
fn cancel_keeps_the_frames_delivered_before_it() {
    let (mut s, _) = ScanSession::start();
    deliver_one(&mut s);
    s.step(ScanEvent::CancelChecked(false));
    s.step(ScanEvent::NextStarted(true));
    deliver_one(&mut s);
    assert_eq!(s.step(ScanEvent::CancelChecked(true)), ScanAction::Stop(ScanEnd::Cancelled));
    assert_eq!(s.frames_delivered, 2);
    // nothing after the cancellation reads or delivers another frame
    for e in [ScanEvent::FrameRead(true), ScanEvent::Delivered, ScanEvent::NextStarted(true)] {
        assert_eq!(s.step(e), ScanAction::Stop(ScanEnd::Cancelled));
    }
    assert_eq!(s.frames_delivered, 2);
    assert_eq!(s.phase, ScanPhase::Finished(ScanEnd::Cancelled));
}

#[test]
fn failures_end_the_session() {
    let (mut s, _) = ScanSession::start();
    assert_eq!(s.step(ScanEvent::FrameRead(false)), ScanAction::Stop(ScanEnd::ReadFailed));
    let (mut s, _) = ScanSession::start();
    s.step(ScanEvent::FrameRead(true));
    assert_eq!(s.step(ScanEvent::ParametersRead(false)), ScanAction::Stop(ScanEnd::ParametersFailed));
    let (mut s, _) = ScanSession::start();
    s.step(ScanEvent::FrameRead(true));
    s.step(ScanEvent::ParametersRead(true));
    assert_eq!(
        s.step(ScanEvent::Normalized(Some(FrameError::IncompleteLine))),
        ScanAction::Stop(ScanEnd::BadFrame(FrameError::IncompleteLine))
    );
    assert_eq!(s.frames_delivered, 0);
}

#[test]
fn out_of_turn_events_change_nothing() {
    let (mut s, _) = ScanSession::start();
    assert_eq!(s.step(ScanEvent::Delivered), ScanAction::ReadFrame);
    assert_eq!(s.step(ScanEvent::CancelChecked(true)), ScanAction::ReadFrame);
    assert_eq!(s.frames_delivered, 0);
    assert_eq!(s.action(), ScanAction::ReadFrame);
}

#[test]
fn new_entries_are_unselected_and_unsaved() {
    let f = normalize_frame(vec![5, 6], FrameFormat::Gray, 2).unwrap();
    let e = new_scan_entry(f, "texture");
    assert_eq!(e.pixels, vec![5, 5, 5, 6, 6, 6]);
    assert_eq!((e.width, e.height), (2, 1));
    assert_eq!(e.texture_handle, "texture");
    assert_eq!(e.selected_as_page, None);
    assert!(!e.saved_to_file);
}

#[test]
fn common_values() {
    assert_eq!(ValueCategory::LetterUS.as_str(), "Letter (US)");
    assert_eq!(ValueCategory::A4.as_str(), "A4 (ISO 216)");
    let v = ValueCategory::LetterUS.get_values();
    assert_eq!(v.len(), 2);
    assert_eq!((v[0].name, v[0].value), ("Width mm", "215.9"));
    assert_eq!((v[1].name, v[1].value), ("Height mm", "279.4"));
    let v = ValueCategory::A4.get_values();
    assert_eq!((v[0].value, v[1].value), ("210", "297"));
    assert_eq!(v[1].description, "Height of A4 (ISO 216) paper in millimeters");
}

#[test]
fn delivering_appends_whole_frames_in_order() {
    let mut pages: Vec<ScanEntry<u32>> = Vec::new();
    let (mut s, _) = ScanSession::start();
    for (k, bytes) in [vec![1u8, 2], vec![3u8, 4]].into_iter().enumerate() {
        s.step(ScanEvent::FrameRead(true));
        s.step(ScanEvent::ParametersRead(true));
        s.step(ScanEvent::Normalized(None));
        let f = normalize_frame(bytes, FrameFormat::Gray, 1).unwrap();
        assert_eq!(s.deliver_frame(&mut pages, f, k as u32), ScanAction::CheckCancel);
        if k == 0 {
            s.step(ScanEvent::CancelChecked(false));
            s.step(ScanEvent::NextStarted(true));
        }
    }
    assert_eq!(s.step(ScanEvent::CancelChecked(true)), ScanAction::Stop(ScanEnd::Cancelled));
    assert_eq!(pages.len(), 2);
    assert_eq!(s.frames_delivered, 2);
    assert_eq!(pages[0].pixels, vec![1, 1, 1, 2, 2, 2]);
    assert_eq!(pages[1].pixels, vec![3, 3, 3, 4, 4, 4]);
    assert_eq!((pages[1].width, pages[1].height, pages[1].texture_handle), (1, 2, 1));
    assert!(pages.iter().all(|p| p.selected_as_page.is_none() && !p.saved_to_file));
}

#[test]
fn device_reopens_only_on_a_new_choice() {
    assert!(needs_open(None, 0));
    assert!(needs_open(Some(1), 0));
    assert!(!needs_open(Some(2), 2));
}
