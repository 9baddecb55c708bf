use steno::dedup::DeduplicationEngine;
use steno::quality::QualityAssessor;
use steno::result_manager::ResultManager;
use steno::segments::{SegmentOrganizer, SegmentSource, CorrectionReason};
use steno::transcript::TranscriptResult;

fn result(text: &str, confidence: u32, temporary: bool, ts: u64, id: &str) -> TranscriptResult {
    TranscriptResult {
        text: text.to_string(),
        confidence,
        is_temporary: temporary,
        speaker: None,
        timestamp: ts,
        processing_time_ms: 100,
        segment_id: id.to_string(),
    }
}

#[test]
fn fast_then_accurate_commits_one_segment() {
    let mut rm = ResultManager::new(1000);
    let fast = result("hello world this is a test", 700, true, 10_000, "fast_1");
    assert!(rm.process_result(fast).is_empty());
    assert_eq!(rm.pending_count(), 1);
    let accurate = result("hello world this is a test", 900, false, 10_500, "accurate_1");
    let ids = rm.process_result(accurate);
    assert_eq!(ids.len(), 1);
    assert_eq!(rm.pending_count(), 0);
    let segs = rm.get_all_segments();
    assert_eq!(segs.len(), 1);
    assert_eq!(segs[0].source, SegmentSource::Merged);
    assert_eq!(segs[0].text, "hello world this is a test");
    assert_eq!(segs[0].confidence, 800);
    assert_eq!(segs[0].timestamp, 10_500);
    assert!(segs[0].is_final);
    assert_eq!(ids[0], "seg_10500_merged_accurate_1");
}

#[test]
fn accurate_alone_is_tagged_accurate() {
    let mut rm = ResultManager::new(10);
    let ids = rm.process_result(result("just the accurate text", 900, false, 5_000, "accurate_9"));
    assert_eq!(ids, vec!["seg_5000_accurate_9".to_string()]);
    assert_eq!(rm.get_all_segments()[0].source, SegmentSource::AccurateProcessing);
    assert_eq!(rm.get_all_segments()[0].end_time, 5_100);
}

#[test]
fn unrelated_pending_result_stays() {
    let mut rm = ResultManager::new(10);
    rm.process_result(result("completely different words", 700, true, 5_000, "fast_a"));
    rm.process_result(result("nothing in common here", 900, false, 5_200, "accurate_b"));
    assert_eq!(rm.pending_count(), 1);
    assert_eq!(rm.get_all_segments().len(), 1);
    assert_eq!(rm.get_all_segments()[0].source, SegmentSource::AccurateProcessing);
}

#[test]
fn merging_a_merged_result_with_itself_is_idempotent() {
    let engine = DeduplicationEngine::new();
    let merged = engine.merge_similar_results(vec![
        result("one two three four five", 600, true, 1_000, "fast_1"),
        result("one two three four five", 900, false, 1_200, "accurate_1"),
    ]);
    assert_eq!(merged.len(), 1);
    let m = merged[0].clone();
    assert_eq!(m.segment_id, "merged_accurate_1");
    assert_eq!(m.confidence, 750);
    assert_eq!(m.timestamp, 1_200);
    assert!(!m.is_temporary);
    let again = engine.merge_similar_results(vec![m.clone(), m.clone()]);
    assert_eq!(again.len(), 1);
    assert_eq!(again[0].text, m.text);
    assert_eq!(again[0].confidence, m.confidence);
    assert_eq!(again[0].segment_id, m.segment_id);
    assert_eq!(again[0].timestamp, m.timestamp);
    assert_eq!(again[0].processing_time_ms, m.processing_time_ms);
}

#[test]
fn duplicates_need_close_time_and_similar_words() {
    let engine = DeduplicationEngine::new();
    let a = result("alpha beta gamma delta epsilon", 500, true, 0, "a");
    let near = result("alpha beta gamma delta epsilon", 500, true, 1_999, "b");
    let far = result("alpha beta gamma delta epsilon", 500, true, 2_000, "c");
    let differ = result("alpha beta gamma delta zeta", 500, true, 10, "d");
    assert!(engine.is_duplicate(&a, &near));
    assert!(!engine.is_duplicate(&a, &far));
    // four shared words out of six distinct: below 0.8
    assert!(!engine.is_duplicate(&a, &differ));
    let longest = engine.merge_group(&vec![
        result("short", 400, true, 0, "x"),
        result("a longer text", 800, false, 5, "y"),
    ]);
    assert_eq!(longest.text, "a longer text");
    assert_eq!(longest.confidence, 600);
    assert_eq!(longest.processing_time_ms, 100);
}

#[test]
fn committed_segments_stay_ordered_whatever_the_arrival_order() {
    let mut rm = ResultManager::new(100);
    let stamps = [50_000u64, 10_000, 30_000, 20_000, 40_000, 15_000];
    for (i, ts) in stamps.iter().enumerate() {
        let text = format!("utterance number {} with unique words {}", i, ts);
        rm.process_result(result(&text, 900, false, *ts, &format!("acc_{}", i)));
    }
    let segs = rm.get_all_segments();
    assert_eq!(segs.len(), 6);
    for w in segs.windows(2) {
        assert!(w[0].start_time <= w[1].start_time);
    }
}

#[test]
fn committed_buffer_never_exceeds_its_maximum() {
    let mut rm = ResultManager::new(5);
    for i in 0..12u64 {
        let text = format!("segment {} words {}", i, i * 7);
        rm.process_result(result(&text, 900, false, i * 10_000, &format!("acc_{}", i)));
        assert!(rm.get_all_segments().len() <= 5);
    }
    let segs = rm.get_all_segments();
    assert_eq!(segs.len(), 5);
    assert_eq!(segs[0].start_time, 70_000);
}

#[test]
fn adjacent_temporary_segments_merge_into_a_paragraph() {
    let mut org = SegmentOrganizer::new(10);
    let id1 = org.add_segment(result("first part", 800, true, 1_000, "f1"), SegmentSource::FastProcessing);
    let id2 = org.add_segment(result("second", 500, true, 2_000, "f2"), SegmentSource::FastProcessing);
    assert_eq!(id1, id2);
    let segs = org.get_segments();
    assert_eq!(segs.len(), 1);
    assert_eq!(segs[0].text, "first part second");
    assert_eq!(segs[0].end_time, 2_100);
    // (800 * 10 + 500 * 6) / 16
    assert_eq!(segs[0].confidence, 687);
    assert_eq!(segs[0].source, SegmentSource::Merged);
    assert_eq!(org.get_continuous_text(None), "first part second");
}

#[test]
fn user_correction_becomes_final() {
    let mut rm = ResultManager::new(10);
    let ids = rm.process_result(result("recognised text", 900, false, 1_000, "acc_1"));
    assert!(rm.update_segment_text(&ids[0], "corrected text".to_string()));
    assert!(!rm.update_segment_text("missing", "x".to_string()));
    let seg = rm.get_segment(&ids[0]).unwrap();
    assert_eq!(seg.text, "corrected text");
    assert_eq!(seg.source, SegmentSource::UserCorrected);
    assert!(seg.is_final);
    assert_eq!(seg.corrections.len(), 1);
    assert_eq!(seg.corrections[0].original, "recognised text");
    assert_eq!(seg.corrections[0].reason, CorrectionReason::UserEdit);
    assert_eq!(seg.corrections[0].confidence, 900);
}

#[test]
fn quality_report_counts_segments() {
    let mut rm = ResultManager::new(10);
    rm.process_result(result("a good long result", 1000, false, 0, "a"));
    rm.process_result(result("ok", 100, false, 10_000, "b"));
    let report = rm.get_quality_report();
    assert_eq!(report.total_segments, 2);
    assert_eq!(report.high_quality_segments, 1);
    assert_eq!(report.low_quality_segments, 1);
    assert_eq!(report.corrected_segments, 0);
    assert_eq!(report.average_confidence, 550);
    assert_eq!(report.quality_percentage, 50);
    let q = QualityAssessor::new();
    let seg = &rm.get_all_segments()[1];
    let score = q.assess_quality(seg);
    // 0.5 * 100 + 0.3 * 666 + 0.2 * 1000
    assert_eq!(score.length_score, 666);
    assert_eq!(score.overall_score, 449);
    assert!(!q.is_high_quality(seg));
}

#[test]
fn old_pending_results_are_purged() {
    let mut rm = ResultManager::new(10);
    rm.process_result(result("old draft", 500, true, 1_000, "f1"));
    rm.process_result(result("new draft", 500, true, 15_000, "f2"));
    rm.process_result(result("new draft again", 500, true, 16_000, "f2"));
    assert_eq!(rm.pending_count(), 2);
    rm.cleanup_old_pending(20_000, 10_000);
    assert_eq!(rm.pending_count(), 1);
    rm.cleanup_old_pending(5_000, 10_000);
    assert_eq!(rm.pending_count(), 1);
}

#[test]
fn fast_result_is_promoted_when_accurate_fails() {
    let mut rm = ResultManager::new(10);
    rm.process_result(result("only the draft survived", 900, true, 3_000, "fast_3000"));
    assert!(rm.promote_pending("missing").is_empty());
    let ids = rm.promote_pending("fast_3000");
    assert_eq!(ids, vec!["seg_3000_fast_3000".to_string()]);
    assert_eq!(rm.pending_count(), 0);
    let seg = &rm.get_all_segments()[0];
    assert_eq!(seg.confidence, 720);
    assert!(seg.is_final);
    assert_eq!(seg.source, SegmentSource::FastProcessing);
}

#[test]
fn duplicate_pairs_are_listed_in_order() {
    let engine = DeduplicationEngine::new();
    let rs = vec![
        result("red green blue", 500, true, 0, "a"),
        result("something else", 500, true, 100, "b"),
        result("red green blue", 500, true, 500, "c"),
        result("red green blue", 500, true, 900, "d"),
    ];
    assert_eq!(engine.find_duplicates(&rs), vec![(0, 2), (0, 3), (2, 3)]);
    assert!(engine.find_duplicates(&vec![]).is_empty());
}

#[test]
fn a_merged_set_merged_with_itself_is_unchanged() {
    let engine = DeduplicationEngine::new();
    let merged = engine.merge_similar_results(vec![
        result("open the front door", 600, true, 1_000, "fast_1"),
        result("close all the windows now", 700, true, 1_100, "fast_2"),
        result("open the front door", 900, false, 1_200, "accurate_1"),
        result("close all the windows now", 800, false, 1_300, "accurate_2"),
    ]);
    assert_eq!(merged.len(), 2);
    let mut twice = merged.clone();
    twice.extend(merged.clone());
    let again = engine.merge_similar_results(twice);
    assert_eq!(again.len(), 2);
    for (a, m) in again.iter().zip(merged.iter()) {
        assert_eq!(a.text, m.text);
        assert_eq!(a.confidence, m.confidence);
        assert_eq!(a.timestamp, m.timestamp);
        assert_eq!(a.segment_id, m.segment_id);
    }
    let once_more = engine.merge_similar_results(merged.clone());
    assert_eq!(once_more.len(), 2);
    assert_eq!(once_more[1].text, merged[1].text);
}

#[test]
fn commit_order_does_not_depend_on_arrival_order() {
    let stamps = [40_000u64, 10_000, 30_000, 20_000, 50_000];
    let run = |order: &[usize]| {
        let mut rm = ResultManager::new(10);
        for &i in order {
            let text = format!("final words number {}", i);
            rm.process_result(result(&text, 900, false, stamps[i], &format!("acc_{}", i)));
        }
        rm.get_all_segments().iter().map(|s| s.start_time).collect::<Vec<u64>>()
    };
    let a = run(&[0, 1, 2, 3, 4]);
    let b = run(&[4, 2, 0, 3, 1]);
    assert_eq!(a, b);
    assert_eq!(a, vec![10_000, 20_000, 30_000, 40_000, 50_000]);
}

#[test]
fn merging_repeats_until_no_duplicates_remain() {
    let engine = DeduplicationEngine::new();
    let merged = engine.merge_similar_results(vec![
        result("same words every time", 500, false, 0, "a"),
        result("same words every time", 900, false, 1_500, "b"),
        result("same words every time", 600, false, 3_000, "c"),
    ]);
    // the first pass joins 0 and 1500 (taking 1500); 1500 and 3000 are then
    // duplicates, so a second pass joins them too
    assert_eq!(merged.len(), 1);
    assert_eq!(merged[0].timestamp, 1_500);
    let again = engine.merge_similar_results(merged.clone());
    assert_eq!(again.len(), 1);
    assert_eq!(again[0].text, merged[0].text);
    assert_eq!(again[0].confidence, merged[0].confidence);
    assert_eq!(again[0].timestamp, merged[0].timestamp);
    let mut twice = merged.clone();
    twice.extend(merged.clone());
    let both = engine.merge_similar_results(twice);
    assert_eq!(both.len(), 1);
    assert_eq!(both[0].confidence, merged[0].confidence);
    assert_eq!(both[0].processing_time_ms, merged[0].processing_time_ms);
    // a single pass still stops after one sweep
    let pass = engine.merge_pass(vec![
        result("same words every time", 500, false, 0, "a"),
        result("same words every time", 900, false, 1_500, "b"),
        result("same words every time", 600, false, 3_000, "c"),
    ]);
    assert_eq!(pass.len(), 2);
}
