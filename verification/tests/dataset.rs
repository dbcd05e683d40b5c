use ferrum_core::dataset::{clean_corpus, corpus_stats, validate_for_training, CleanOptions};
use ferrum_core::InferError;

#[test]
fn default_removes_carriage_returns() {
    let cleaned = clean_corpus("a\r\nb\r\n", &CleanOptions::default());
    assert!(!cleaned.contains('\r'));
    assert!(cleaned.contains("a\nb"));
}

#[test]
fn lowercase_option_folds_case() {
    let opts = CleanOptions { lowercase: true, ..CleanOptions::default() };
    assert_eq!(clean_corpus("ABCdef", &opts).trim(), "abcdef");
}

#[test]
fn punctuation_is_folded_to_ascii() {
    let raw = "\u{201C}quote\u{201D} \u{2018}q\u{2019} dash\u{2014}dash ellipsis\u{2026}";
    let cleaned = clean_corpus(raw, &CleanOptions::default());
    assert!(cleaned.contains("\"quote\""));
    assert!(cleaned.contains("'q'"));
    assert!(cleaned.contains("dash-dash"));
    assert!(cleaned.contains("ellipsis..."));
    for bad in ['\u{201C}', '\u{201D}', '\u{2018}', '\u{2019}', '\u{2014}', '\u{2026}'] {
        assert!(!cleaned.contains(bad), "found {bad:?}");
    }
}

#[test]
fn control_chars_stripped_but_tabs_and_newlines_kept() {
    let raw = "a\u{0007}b\tc\nd";
    let cleaned = clean_corpus(raw, &CleanOptions::default());
    assert!(!cleaned.contains('\u{0007}'));
    assert!(cleaned.contains('\t'));
    assert!(cleaned.contains('\n'));
}

#[test]
fn whitespace_collapsing_limits_blank_runs_and_trims() {
    let raw = "\n\n\nhello   \n\n\n\nworld\n\n\n";
    let cleaned = clean_corpus(raw, &CleanOptions::default());
    assert!(cleaned.starts_with("hello"));
    assert!(cleaned.trim_end().ends_with("world"));
    assert!(!cleaned.contains("\n\n\n"));
    assert!(cleaned.contains("hello\n"));
}

#[test]
fn gutenberg_boilerplate_is_stripped() {
    let raw = "The Project Gutenberg eBook ...\nlicense junk\n\
        *** START OF THE PROJECT GUTENBERG EBOOK FOO ***\n\
        real body text here\n\
        *** END OF THE PROJECT GUTENBERG EBOOK FOO ***\n\
        footer license junk\n";
    let cleaned = clean_corpus(raw, &CleanOptions::default());
    assert!(cleaned.contains("real body text here"));
    assert!(!cleaned.contains("license junk"));
    assert!(!cleaned.contains("START OF"));
}

#[test]
fn gutenberg_passthrough_when_markers_absent() {
    let raw = "just a normal corpus with no markers\n";
    let opts = CleanOptions { collapse_whitespace: false, ..CleanOptions::default() };
    assert_eq!(clean_corpus(raw, &opts), "just a normal corpus with no markers\n");
}

#[test]
fn max_chars_truncates() {
    let opts = CleanOptions { max_chars: Some(5), ..CleanOptions::default() };
    let cleaned = clean_corpus("abcdefghij", &opts);
    assert_eq!(cleaned.chars().count(), 5);
}

#[test]
fn stats_count_correctly() {
    let s = corpus_stats("ab ab\ncd");
    assert_eq!(s.chars, 8);
    assert_eq!(s.lines, 2);
    assert_eq!(s.words, 3);
    assert_eq!(s.unique_chars, 6);
    assert_eq!(s.bytes, 8);
}

#[test]
fn validate_rejects_empty_and_short() {
    assert!(validate_for_training("", 4).is_err());
    assert!(validate_for_training("abc", 4).is_err());
    assert!(validate_for_training("abcde", 4).is_ok());
    assert!(validate_for_training("abcde", 0).is_err());
}

#[test]
fn cleaning_then_validation_is_consistent() {
    let raw = "café résumé naïve façade — a short but valid corpus.\r\n";
    let cleaned = clean_corpus(raw, &CleanOptions::default());
    assert!(validate_for_training(&cleaned, 8).is_ok());
    assert!(cleaned.contains("café"));
}

#[test]
fn lowercase_reaches_beyond_ascii() {
    let opts = CleanOptions { lowercase: true, ..CleanOptions::default() };
    assert_eq!(clean_corpus("ÄΣ\u{0130}", &opts).trim(), "äσi\u{0307}");
}

#[test]
fn bytes_and_characters_are_counted_apart() {
    let s = corpus_stats("é\n\n");
    assert_eq!((s.bytes, s.chars, s.lines, s.words, s.unique_chars), (4, 3, 2, 1, 2));
}

#[test]
fn a_text_that_is_too_short_is_a_mismatch() {
    assert!(matches!(validate_for_training("abc", 4), Err(InferError::DimMismatch(_))));
}

#[test]
fn only_ascii_control_characters_are_stripped() {
    let opts = CleanOptions {
        strip_gutenberg: false,
        normalize_punctuation: false,
        strip_control_chars: true,
        collapse_whitespace: false,
        lowercase: false,
        max_chars: None,
    };
    assert_eq!(clean_corpus("a\u{85}b", &opts), "a\u{85}b");
    assert_eq!(clean_corpus("a\u{7f}\u{1f}\u{80}\tb\n", &opts), "a\u{80}\tb\n");
}

#[test]
fn cleaning_again_changes_nothing() {
    let raw = "*** START OF A BOOK ***\n\n\n \u{201c}Hi\u{201d}\u{7}   there \t\n\n\n\u{2026}\r\nend  \n";
    let once = clean_corpus(raw, &CleanOptions::default());
    assert_eq!(clean_corpus(&once, &CleanOptions::default()), once);
}

#[test]
fn what_is_missing_for_training_is_counted() {
    match validate_for_training("abc", 4) {
        Err(InferError::DimMismatch(t)) => {
            assert_eq!(t, "corpus has 3 characters but needs at least 5 (context_len + 1)");
        }
        other => panic!("{other:?}"),
    }
    assert!(validate_for_training("abcde", 4).is_ok());
}
