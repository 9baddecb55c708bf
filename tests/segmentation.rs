use steno::preprocess::AudioProcessingPipeline;
use steno::scheduler::{channels_for, ProcessingChannel};
use steno::segmenter::{SmartAudioBuffer, SpeechSegment, MAX_SEGMENT_SAMPLES, MIN_SEGMENT_SAMPLES};
use steno::vad::{SpeechBoundary, VoiceActivityDetector};

const FRAME: usize = 160;

fn speech_frame() -> Vec<i16> {
    (0..FRAME).map(|i| if i % 2 == 0 { 12000 } else { -12000 }).collect()
}

fn silent_frame() -> Vec<i16> {
    vec![0; FRAME]
}

fn feed(buf: &mut SmartAudioBuffer, frame: &[i16], count: usize, out: &mut Vec<SpeechSegment>) {
    for _ in 0..count {
        out.extend(buf.add_chunk(frame));
    }
}

#[test]
fn silence_for_twelve_seconds_gives_no_segment() {
    let mut buf = SmartAudioBuffer::new();
    let mut out = Vec::new();
    feed(&mut buf, &silent_frame(), 1200, &mut out);
    assert_eq!(out.len(), 0);
    assert!(buf.force_complete_current().is_none());
    assert_eq!(buf.get_speech_probability(), 0);
}

#[test]
fn short_burst_then_silence_gives_one_segment_for_both_tiers() {
    let mut buf = SmartAudioBuffer::new();
    let mut out = Vec::new();
    feed(&mut buf, &speech_frame(), 150, &mut out);
    feed(&mut buf, &silent_frame(), 100, &mut out);
    assert_eq!(out.len(), 1);
    let seg = &out[0];
    assert!(seg.is_complete);
    assert_eq!(seg.start_time, 0);
    // 1.5 s of speech plus the tail of the moving average (six frames).
    assert_eq!(seg.audio_data.len(), 24960);
    assert_eq!(seg.end_time, Some(seg.audio_data.len() as u64));
    assert_eq!(
        channels_for(seg),
        vec![ProcessingChannel::Fast, ProcessingChannel::Accurate]
    );
}

#[test]
fn twelve_seconds_of_speech_split_at_ten() {
    let mut buf = SmartAudioBuffer::new();
    let mut out = Vec::new();
    feed(&mut buf, &speech_frame(), 1200, &mut out);
    assert_eq!(out.len(), 1);
    assert_eq!(out[0].audio_data.len() as u64, MAX_SEGMENT_SAMPLES);
    assert_eq!(out[0].duration(), 160000);
    let rest = buf.force_complete_current().expect("trailing segment");
    assert_eq!(rest.start_time, 160000);
    assert_eq!(rest.audio_data.len(), 32000);
    assert_eq!(channels_for(&out[0]), vec![ProcessingChannel::Accurate]);
}

#[test]
fn segments_are_bounded_and_do_not_overlap() {
    let mut buf = SmartAudioBuffer::new();
    let mut out = Vec::new();
    for round in 0..6 {
        feed(&mut buf, &speech_frame(), 300 + 400 * round, &mut out);
        feed(&mut buf, &silent_frame(), 120, &mut out);
        feed(&mut buf, &speech_frame(), 20, &mut out);
        feed(&mut buf, &silent_frame(), 120, &mut out);
    }
    assert!(!out.is_empty());
    for s in &out {
        let len = s.audio_data.len() as u64;
        assert!(len >= MIN_SEGMENT_SAMPLES && len <= MAX_SEGMENT_SAMPLES);
    }
    for w in out.windows(2) {
        assert!(w[0].start_time + w[0].audio_data.len() as u64 <= w[1].start_time);
    }
}

#[test]
fn short_speech_is_dropped_on_flush() {
    let mut buf = SmartAudioBuffer::new();
    let mut out = Vec::new();
    feed(&mut buf, &speech_frame(), 20, &mut out);
    assert!(buf.get_current_segment().is_some());
    assert!(buf.force_complete_current().is_none());
    assert!(buf.get_current_segment().is_none());
}

#[test]
fn vad_scores_energy_and_crossings() {
    let mut vad = VoiceActivityDetector::new();
    assert!(vad.is_speech(&speech_frame()));
    assert_eq!(vad.get_speech_probability(), 1000);
    assert!(vad.is_speech(&silent_frame()));
    assert_eq!(vad.get_speech_probability(), 500);
    assert!(vad.is_speech(&silent_frame()));
    assert!(!vad.is_speech(&silent_frame()));
    assert_eq!(vad.get_speech_probability(), 250);
    assert_eq!(vad.detect_speech_boundary(&silent_frame()), SpeechBoundary::SilenceStart);
    assert_eq!(vad.detect_speech_boundary(&speech_frame()), SpeechBoundary::SpeechStart);
    let mid = vec![1200i16; FRAME];
    assert_eq!(vad.detect_speech_boundary(&mid), SpeechBoundary::Continuing);
}

#[test]
fn pipeline_normalizes_before_segmenting() {
    let pre = steno::preprocess::AudioPreprocessor::new();
    let out = pre.process(&[100, 100, -200, 50]);
    // gate: all below threshold -> 10, 10, -20, 5; emphasis: 10, 0, -29, 24
    assert_eq!(out, vec![10734, 0, -31129, 25761]);
    let mut p = AudioProcessingPipeline::new();
    let mut total = 0;
    for _ in 0..200 {
        total += p.process_chunk(&silent_frame()).len();
    }
    assert_eq!(total, 0);
    assert!(p.force_complete_current().is_none());
}
