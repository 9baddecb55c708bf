use steno::orchestrator::{audio_level, Orchestrator, TranscriptEvent};
use steno::scheduler::{accurate_chunks, channels_for, combine_accurate, draft_result, EngineOutput, ProcessingChannel};
use steno::segments::SegmentSource;
use steno::session::{SessionCommand, SessionState};
use steno::transcript::TranscriptResult;

fn speech_frame() -> Vec<i16> {
    (0..160).map(|i| if i % 2 == 0 { 12000 } else { -12000 }).collect()
}

#[test]
fn frames_are_ignored_until_recording() {
    let mut o = Orchestrator::new(100, true);
    assert!(o.on_audio_frame(&speech_frame()).is_empty());
    assert!(!o.command(SessionCommand::Pause));
    assert!(o.command(SessionCommand::Start));
    assert_eq!(o.state(), SessionState::Recording);
    let mut segs = Vec::new();
    for _ in 0..1100 {
        segs.extend(o.on_audio_frame(&speech_frame()));
    }
    assert_eq!(segs.len(), 1);
    assert_eq!(segs[0].audio_data.len(), 160000);
    let (rest, events) = o.stop();
    assert_eq!(rest.unwrap().audio_data.len(), 16000);
    assert_eq!(events.len(), 2);
    assert!(matches!(events[1], TranscriptEvent::RecordingStopped));
    assert_eq!(o.state(), SessionState::Stopped);
    assert!(!o.command(SessionCommand::Start));
}

#[test]
fn results_become_events_and_segments() {
    let mut o = Orchestrator::new(100, true);
    o.command(SessionCommand::Start);
    let fast = TranscriptResult {
        text: "good morning everyone here".to_string(),
        confidence: 700,
        is_temporary: true,
        speaker: None,
        timestamp: 1_000,
        processing_time_ms: 90,
        segment_id: "fast_1000".to_string(),
    };
    let events = o.on_result(fast, &None, 1_000);
    assert_eq!(events.len(), 1);
    let accurate = TranscriptResult {
        text: "good morning everyone here".to_string(),
        confidence: 900,
        is_temporary: false,
        speaker: None,
        timestamp: 1_200,
        processing_time_ms: 400,
        segment_id: "accurate_1".to_string(),
    };
    let events = o.on_result(accurate, &None, 1_200);
    assert_eq!(events.len(), 2);
    assert!(matches!(events[1], TranscriptEvent::SegmentUpdated { .. }));
    assert_eq!(o.get_segments().len(), 1);
    assert_eq!(o.get_current_transcript(), "good morning everyone here");
    let id = o.get_segments()[0].id.clone();
    assert_eq!(o.update_segment(&id, "good morning all".to_string()).len(), 1);
    assert_eq!(o.update_segment("nope", "x".to_string()).len(), 0);
    match o.stats_event() {
        TranscriptEvent::ProcessingStats { segments_processed, quality_report, .. } => {
            assert_eq!(segments_processed, 1);
            assert_eq!(quality_report.total_segments, 1);
            assert_eq!(quality_report.corrected_segments, 1);
        }
        _ => panic!("expected statistics"),
    }
}

#[test]
fn level_is_peak_in_thousandths() {
    assert_eq!(audio_level(&[0, -16384, 100]), 500);
    assert_eq!(audio_level(&[]), 0);
}

#[test]
fn burst_goes_to_both_tiers_and_commits_once() {
    let mut o = Orchestrator::new(100, false);
    o.command(SessionCommand::Start);
    let silent = vec![0i16; 160];
    let mut segs = Vec::new();
    for _ in 0..150 {
        segs.extend(o.on_audio_frame(&speech_frame()));
    }
    for _ in 0..100 {
        segs.extend(o.on_audio_frame(&silent));
    }
    assert_eq!(segs.len(), 1);
    let seg = &segs[0];
    assert!(seg.audio_data.len() >= 24000 && seg.audio_data.len() <= 25000);
    assert_eq!(channels_for(seg), vec![ProcessingChannel::Fast, ProcessingChannel::Accurate]);

    let fast = draft_result(
        EngineOutput { text: "turn the lights on".to_string(), confidence: 900 },
        None,
        2_000,
        80,
    )
    .unwrap();
    let events = o.on_result(fast, &None, 2_000);
    assert!(matches!(events[0], TranscriptEvent::TranscriptionResult { is_temporary: true, .. }));
    assert_eq!(o.get_segments().len(), 0);

    let windows = accurate_chunks(&seg.audio_data);
    assert_eq!(windows.len(), 1);
    let outs = vec![Some(EngineOutput { text: "turn the lights on".to_string(), confidence: 950 })];
    let accurate = combine_accurate(&outs, 2_300, 400, seg.start_time / 16).unwrap();
    let events = o.on_result(accurate, &None, 2_300);
    assert!(matches!(events[0], TranscriptEvent::TranscriptionResult { is_temporary: false, .. }));
    assert_eq!(events.len(), 2);
    let committed = o.get_segments();
    assert_eq!(committed.len(), 1);
    assert_eq!(committed[0].source, SegmentSource::Merged);
    assert_eq!(committed[0].text, "turn the lights on");
    assert!(committed[0].is_final);
}

#[test]
fn silence_makes_no_segment_and_no_engine_work() {
    let mut o = Orchestrator::new(100, true);
    o.command(SessionCommand::Start);
    let silent = vec![0i16; 160];
    let mut segs = Vec::new();
    for _ in 0..1200 {
        segs.extend(o.on_audio_frame(&silent));
    }
    let (rest, _) = o.stop();
    assert!(segs.is_empty());
    assert!(rest.is_none());
}

#[test]
fn stop_promotes_pending_drafts_and_reports() {
    let mut o = Orchestrator::new(100, false);
    o.command(SessionCommand::Start);
    let draft = TranscriptResult {
        text: "left without a final".to_string(),
        confidence: 500,
        is_temporary: true,
        speaker: None,
        timestamp: 4_000,
        processing_time_ms: 60,
        segment_id: "fast_4000".to_string(),
    };
    o.on_result(draft, &None, 4_000);
    assert_eq!(o.get_segments().len(), 0);
    let (_, events) = o.stop();
    assert_eq!(events.len(), 3);
    assert!(matches!(events[0], TranscriptEvent::SegmentUpdated { .. }));
    match &events[1] {
        TranscriptEvent::ProcessingStats { quality_report, .. } => assert_eq!(quality_report.total_segments, 1),
        _ => panic!("expected statistics"),
    }
    assert!(matches!(events[2], TranscriptEvent::RecordingStopped));
    let segs = o.get_segments();
    assert_eq!(segs[0].confidence, 400);
    assert_eq!(segs[0].source, SegmentSource::FastProcessing);
}

#[test]
fn orchestrator_promotes_and_purges_pending() {
    let mut o = Orchestrator::new(100, false);
    o.command(SessionCommand::Start);
    let mk = |id: &str, ts: u64, text: &str| TranscriptResult {
        text: text.to_string(),
        confidence: 800,
        is_temporary: true,
        speaker: None,
        timestamp: ts,
        processing_time_ms: 50,
        segment_id: id.to_string(),
    };
    o.on_result(mk("fast_1", 1_000, "alpha beta gamma"), &None, 1_000);
    o.on_result(mk("fast_2", 20_000, "delta epsilon zeta"), &None, 20_000);
    o.cleanup_old_pending(21_000);
    assert!(o.promote_pending("fast_1").is_empty());
    let events = o.promote_pending("fast_2");
    assert_eq!(events.len(), 1);
    assert_eq!(o.get_segments().len(), 1);
    assert_eq!(o.get_segments()[0].text, "delta epsilon zeta");
}

#[test]
fn silent_frames_leave_the_session_idle() {
    let mut o = Orchestrator::new(10, true);
    o.command(SessionCommand::Start);
    for _ in 0..375 {
        assert!(o.on_audio_frame(&[0i16; 512]).is_empty());
    }
    let (rest, _) = o.stop();
    assert!(rest.is_none());
}
