use steno::context::{
    apply_basic_grammar_fixes, ContextAwareProcessor, ContextRule, ConversationBuffer,
    ConversationSegment, LanguageContextModel,
};
use steno::transcript::TranscriptResult;

fn conv(text: &str, speaker: Option<&str>, ts: u64) -> ConversationSegment {
    ConversationSegment {
        text: text.to_string(),
        speaker_id: speaker.map(|s| s.to_string()),
        timestamp: ts,
        confidence: 900,
        segment_id: format!("s{}", ts),
    }
}

#[test]
fn grammar_fixes_collapse_repeats_and_punctuation() {
    let out: String = apply_basic_grammar_fixes(&"the  the cat sat , ok ok .".chars().collect()).into_iter().collect();
    assert_eq!(out, "the cat sat, ok ok.");
    let out: String = apply_basic_grammar_fixes(&"hello hello world !".chars().collect()).into_iter().collect();
    assert_eq!(out, "hello world!");
    // a single hanzi takes three bytes, so its repetition collapses
    let out: String = apply_basic_grammar_fixes(&"好 好 的".chars().collect()).into_iter().collect();
    assert_eq!(out, "好 的");
}

#[test]
fn filler_words_are_corrected() {
    let m = LanguageContextModel::new();
    assert_eq!(m.correct_text("那个那个 我们 然后然后", "", &None), "那个 我们 然后");
    assert_eq!(m.correct_text("  spaced   out text  ", "", &None), "spaced out text");
}

#[test]
fn context_rules_need_their_words() {
    let mut m = LanguageContextModel::new();
    m.add_rule(ContextRule {
        pattern: "rust".to_string(),
        replacement: "Rust".to_string(),
        context_required: vec!["programming".to_string()],
    });
    assert_eq!(m.correct_text("i like rust", "we talk about programming", &None), "i like Rust");
    assert_eq!(m.correct_text("i like rust", "we talk about metal", &None), "i like rust");
}

#[test]
fn recent_context_is_capped_in_words() {
    let mut b = ConversationBuffer::new(10, 300_000);
    b.add_segment(conv("one two three", Some("A"), 1_000), 1_000);
    b.add_segment(conv("four  five", Some("B"), 2_000), 2_000);
    assert_eq!(b.get_recent_context(4), "two three four five");
    assert_eq!(b.get_recent_context(100), "one two three four five");
    assert_eq!(b.get_recent_context(0), "");
    assert_eq!(b.generate_whisper_prompt(), "Previous context: one two three four five");
    assert_eq!(b.get_speaker_context("A", 5).len(), 1);
    // entries older than the maximum age leave first
    b.add_segment(conv("six", None, 400_000), 400_000);
    assert_eq!(b.get_recent_context(100), "six");
    let empty = ConversationBuffer::new(10, 1_000);
    assert_eq!(empty.generate_whisper_prompt(), "");
}

#[test]
fn conversation_buffer_keeps_at_most_its_capacity() {
    let mut b = ConversationBuffer::new(2, 300_000);
    b.add_segment(conv("a1", None, 1), 1);
    b.add_segment(conv("b2", None, 2), 2);
    b.add_segment(conv("c3", None, 3), 3);
    assert_eq!(b.get_recent_context(10), "b2 c3");
}

#[test]
fn context_processing_boosts_low_confidence() {
    let mut p = ContextAwareProcessor::new();
    let r = TranscriptResult {
        text: "so so this is is fine ,".to_string(),
        confidence: 400,
        is_temporary: false,
        speaker: Some("Speaker Z".to_string()),
        timestamp: 1_000,
        processing_time_ms: 20,
        segment_id: "acc_1".to_string(),
    };
    let out = p.process_with_context(r, &None, 1_000);
    assert_eq!(out.text, "so so this is is fine,");
    assert_eq!(out.confidence, 440);
    assert_eq!(out.speaker, Some("Speaker Z".to_string()));
    assert_eq!(p.get_conversation_context(3), "is is fine,");
    assert_eq!(p.get_whisper_prompt(), "Previous context: so so this is is fine,");
    assert_eq!(p.get_speaker_count(), 0);
}
