use steno::recognizer::{
    calculate_confidence, check_chunk, confidence_from, is_temporary_for, post_process_text,
    ChunkError,
};

#[test]
fn chunks_too_short_or_silent_are_refused() {
    assert_eq!(check_chunk(&vec![5000i16; 1599]), Err(ChunkError::TooShort));
    assert_eq!(check_chunk(&vec![0i16; 1600]), Err(ChunkError::Silent));
    assert_eq!(check_chunk(&vec![100i16; 1600]), Err(ChunkError::Silent));
    assert_eq!(check_chunk(&vec![200i16; 1600]), Ok(()));
}

#[test]
fn engine_text_is_cleaned_per_language() {
    assert_eq!(post_process_text("  hello   world .  ", "en"), "hello world.");
    assert_eq!(post_process_text("我我 的的东西", "zh"), "我 的东西");
    assert_eq!(post_process_text("a  b", "fr"), "a b");
}

#[test]
fn hybrid_mode_marks_two_of_three_temporary() {
    assert!(is_temporary_for("hybrid", 1));
    assert!(is_temporary_for("hybrid", 2));
    assert!(!is_temporary_for("hybrid", 3));
    assert!(!is_temporary_for("streaming", 1));
}

#[test]
fn confidence_depends_on_length_and_content() {
    assert_eq!(calculate_confidence(&"--".to_string()), 950);
    assert_eq!(calculate_confidence(&"ab".to_string()), 980);
    assert_eq!(calculate_confidence(&"é".to_string()), 980);
    assert_eq!(calculate_confidence(&"7".to_string()), 980);
    assert_eq!(confidence_from(4, false), 980);
    assert_eq!(confidence_from(1, false), 950);
}
