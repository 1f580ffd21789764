use kotha::correct::{Corrector, ZIPF_ONE};
use kotha::dictionary::Row;
use kotha::text::{is_space, trimmed};
use kotha::transcript::{
    assemble, collapse_loops, decode_prompt, finish, suspicious_fusion, windows,
};

#[test]
fn collapses_a_stuck_word_but_leaves_reduplication_alone() {
    assert_eq!(
        collapse_loops("তোমার কথা কথা কথা কথা কথা কথা ধরো ভালো আছে।"),
        "তোমার কথা ধরো ভালো আছে।"
    );
    assert_eq!(collapse_loops("ধীরে ধীরে করতে করতে"), "ধীরে ধীরে করতে করতে");
    assert_eq!(collapse_loops("না না না ভাই"), "না না না ভাই");
}

#[test]
fn collapses_a_stuck_phrase_and_keeps_the_tail() {
    assert_eq!(
        collapse_loops("ami ভালো আছি ভালো আছি ভালো আছি ভালো আছি thanks"),
        "ami ভালো আছি thanks"
    );
    assert_eq!(collapse_loops("hello world"), "hello world");
    assert_eq!(collapse_loops(""), "");
}

#[test]
fn the_shortest_phrase_and_the_longest_run_are_taken() {
    assert_eq!(collapse_loops("a a a a"), "a");
    assert_eq!(collapse_loops("a a a"), "a a a");
    assert_eq!(collapse_loops("a b c d a b c d a b c d a b c d e"), "a b c d e");
    assert_eq!(
        collapse_loops("a b c d e a b c d e a b c d e a b c d e"),
        "a b c d e a b c d e a b c d e a b c d e"
    );
    // A loop inside a loop: one pass only.
    assert_eq!(
        collapse_loops("a a a a b a a a a b a a a a b a a a a b"),
        "a b a b a b a b"
    );
    assert_eq!(collapse_loops("x  y\t\n y y y z"), "x y z");
}

#[test]
fn whitespace_is_what_unicode_says() {
    for u in 0..=0x10ffffu32 {
        if let Some(c) = char::from_u32(u) {
            assert_eq!(is_space(c), c.is_whitespace(), "U+{u:04X}");
        }
    }
}

#[test]
fn trimming_takes_both_ends() {
    assert_eq!(trimmed("  a b\u{3000}"), "a b");
    assert_eq!(trimmed(" \t "), "");
    assert_eq!(trimmed(""), "");
    assert_eq!(trimmed("a"), "a");
}

#[test]
fn fused_words_are_reported() {
    assert_eq!(suspicious_fusion("hello world"), None);
    assert_eq!(suspicious_fusion("abcdefghijklmnopqrst"), None);
    assert_eq!(
        suspicious_fusion("x abcdefghijklmnopqrstu y"),
        Some("suspiciously long Latin run (21 chars): \"abcdefghijklmnopqrstu\"".to_string())
    );
    // The last of the longest, and only words of letters alone.
    assert_eq!(
        suspicious_fusion("aaaaaaaaaaaaaaaaaaaaaaa bbbbbbbbbbbbbbbbbbbbbbb ccccccccccccccccccccccccc1"),
        Some("suspiciously long Latin run (23 chars): \"bbbbbbbbbbbbbbbbbbbbbbb\"".to_string())
    );
    assert_eq!(suspicious_fusion("আআআআআআআআআআআআআআআআআআআআআআআআ"), None);
    assert_eq!(suspicious_fusion(""), None);
}

#[test]
fn discarded_windows_leave_no_trace() {
    let decodes = vec![
        Some("a a a a b".to_string()),
        None,
        Some("".to_string()),
        Some("c".to_string()),
    ];
    assert_eq!(assemble(&decodes), "a b  c");
    assert_eq!(assemble(&vec![None, None]), "");
    assert_eq!(assemble(&vec![]), "");
}

#[test]
fn long_audio_is_cut_into_windows() {
    assert_eq!(windows(0), vec![]);
    assert_eq!(windows(480_000), vec![(0, 480_000)]);
    assert_eq!(windows(480_001), vec![(0, 480_000), (480_000, 480_001)]);
    assert_eq!(windows(1_000_000).len(), 3);
}

#[test]
fn the_prompt_asks_for_bengali_without_timestamps() {
    assert_eq!(
        decode_prompt(),
        vec!["<|startoftranscript|>", "<|bn|>", "<|transcribe|>", "<|notimestamps|>"]
    );
}

#[test]
fn an_utterance_is_trimmed_inspected_and_corrected() {
    let row = |w: &str| Row { word: w.to_string(), zipf: Some(5 * ZIPF_ONE) };
    let c = Corrector::checked(vec![row("football")]).unwrap();

    let said = finish(&c, "  আমার footbal  ");
    assert_eq!(said.heard, "আমার footbal");
    assert_eq!(said.fixed, "আমার football");
    assert!(said.warning.is_none());
    assert!(said.anything());
    assert!(said.changed());

    let nothing = finish(&c, " \n ");
    assert_eq!(nothing.heard, "");
    assert!(!nothing.anything());
    assert!(!nothing.changed());

    let fused = finish(&c, "abcdefghijklmnopqrstuvwxyz");
    assert!(fused.warning.is_some());
}
