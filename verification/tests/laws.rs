use kotha::correct::{Corrector, KNOWN_FLOOR, MARGIN, ZIPF_ONE};
use kotha::dictionary::{place, split_lines, Place, Row};
use kotha::distance::levenshtein_within;
use kotha::mel::{frame_start, padded, PAD};
use kotha::segment::{Segmenter, FRAME};
use kotha::text::{
    chars_of, join_texts, join_words, same_chars, same_text, slice_of, split_words, text_of,
};
use kotha::transcript::collapse_loops;

fn words(s: &str) -> Vec<String> {
    split_words(s).iter().map(|w| text_of(w)).collect()
}

#[test]
fn words_lose_only_whitespace() {
    for s in ["", " ", "a", "  আমি\tভালো\n\nআছি ", "x\u{a0}y\u{200b}z"] {
        let dense: String = s.chars().filter(|c| !c.is_whitespace()).collect();
        assert_eq!(words(s).concat(), dense);
        let std: Vec<String> = s.split_whitespace().map(str::to_string).collect();
        assert_eq!(words(s), std);
        let once = join_words(&split_words(s));
        assert_eq!(join_words(&split_words(&once)), once);
        assert_eq!(words(&once), words(s));
        assert_eq!(join_texts(&words(s)), once);
    }
}

#[test]
fn texts_are_compared_character_by_character() {
    assert!(same_text("কথা", "কথা"));
    assert!(!same_text("কথা", "কথ"));
    assert!(!same_text("a", "b"));
    assert!(same_chars(&[], &[]));
    assert_eq!(slice_of(&chars_of("abcd"), 1, 3), vec!['b', 'c']);
}

#[test]
fn lines_end_where_the_standard_library_ends_them() {
    for s in ["", "\n", "a", "a\n", "a\r\nb", "a\rb\n\r\n", "\r", "x\n\ny\r"] {
        let got: Vec<String> = split_lines(s).iter().map(|l| text_of(l)).collect();
        let want: Vec<String> = s.lines().map(str::to_string).collect();
        assert_eq!(got, want, "{s:?}");
    }
}

#[test]
fn the_dictionary_order_is_that_of_strings() {
    let ws = ["", "a", "ab", "abc", "b", "é", "ক", "খ"];
    for a in ws {
        for b in ws {
            let p = place(&chars_of(a), &chars_of(b));
            let want = if a < b {
                Place::Before
            } else if a == b {
                Place::Same
            } else {
                Place::After
            };
            assert!(p == want, "{a} against {b}");
        }
    }
}

#[test]
fn distances_are_a_metric() {
    let ws = ["", "a", "ab", "kitten", "sitting", "mitten", "আমি"];
    let d = |a, b| levenshtein_within(a, b, 99).unwrap();
    for a in ws {
        for b in ws {
            assert_eq!(d(a, b), d(b, a));
            assert_eq!(d(a, b) == 0, a == b);
            assert!(d(a, b) <= a.chars().count().max(b.chars().count()));
            for c in ws {
                assert!(d(a, c) <= d(a, b) + d(b, c));
            }
        }
    }
}

#[test]
fn corrections_are_supported() {
    let dict = [("abcdef", 4), ("abcdeg", 1), ("bcdefg", 6), ("zzzzzz", 7)];
    let rows = dict
        .iter()
        .map(|(w, z)| Row { word: w.to_string(), zipf: Some(z * ZIPF_ONE) })
        .collect();
    let c = Corrector::checked(rows).unwrap();
    for token in ["abcdex", "abcdeg", "zzzzz", "bcdef", "abc", "qqqqqq", "আমিআমি", "abcdef"] {
        let fixed = c.correct_token(token);
        if fixed != token {
            assert!(c.zipf(fixed) >= c.zipf(token) + MARGIN);
            assert!(c.zipf(token) < KNOWN_FLOOR);
            let d = levenshtein_within(token, fixed, 2).expect("too far away");
            assert!(d >= 1);
            for (w, _) in dict {
                if w != token {
                    assert!(levenshtein_within(token, w, d - 1).is_none(), "{w} is nearer");
                }
            }
        }
    }
    assert_eq!(c.correct_token("abcdex"), "abcdef");
    assert_eq!(c.correct_token("abcdeg"), "abcdef");
    assert_eq!(c.correct_token("zzzzz"), "zzzzzz");
    assert_eq!(c.correct_token("qqqqqq"), "qqqqqq");
}

#[test]
fn collapsing_invents_nothing_and_keeps_the_first_word() {
    for s in ["a b a b a b a b c", "x x x", "p q r p q r p q r p q r", "one"] {
        let before = words(s);
        let after = words(&collapse_loops(s));
        assert!(after.len() <= before.len());
        assert_eq!(after[0], before[0]);
        assert!(after.iter().all(|w| before.contains(w)));
        assert!(before.iter().all(|w| after.contains(w)), "a word of {s} is lost");
        assert_eq!(after.last(), before.last());
    }
    for k in 0..10 {
        let stuck = vec!["না"; k].join(" ");
        let want = if k >= 4 { "না".to_string() } else { stuck.clone() };
        assert_eq!(collapse_loops(&stuck), want);
    }
}

#[test]
fn frames_arrive_in_any_batches() {
    let flags: Vec<bool> = (0..200).map(|k| k % 90 > 10 && k % 90 < 45).collect();
    let run = |from: usize, to: usize, seg: &mut Segmenter<usize>| -> Vec<Vec<usize>> {
        (from..to)
            .filter_map(|k| {
                let frame: Vec<usize> = (k * FRAME..(k + 1) * FRAME).collect();
                seg.push_forced(&frame, flags[k])
            })
            .collect()
    };
    let mut whole = Segmenter::new();
    let all = run(0, 200, &mut whole);
    assert_eq!(all.len(), 2);
    for cut in [0, 1, 50, 83, 84, 199] {
        let mut seg = Segmenter::new();
        let mut got = run(0, cut, &mut seg);
        got.extend(run(cut, 200, &mut seg));
        assert_eq!(got, all);
    }
}

#[test]
fn spectrogram_frames_are_centred() {
    let samples: Vec<usize> = (0..480_000).collect();
    let p = padded(&samples, usize::MAX);
    for j in [0usize, 1, 2, 1500, 2999] {
        assert_eq!(p[frame_start(j) + PAD], j * 160);
    }
    for i in 0..=PAD {
        assert_eq!(p[PAD - i], p[PAD + i]);
    }
}

#[test]
fn lines_are_corrected_token_by_token() {
    let row = |w: &str| Row { word: w.to_string(), zipf: Some(5 * ZIPF_ONE) };
    let c = Corrector::checked(vec![row("football"), row("meeting")]).unwrap();
    let (left, right) = ("আমার footbal,", "Meetng টা -");
    let whole = c.correct_text(&format!("{left}\t{right}"));
    assert_eq!(whole, "আমার football, Meeting টা -");
    assert_eq!(whole, format!("{} {}", c.correct_text(left), c.correct_text(right)));
}

#[test]
fn bengali_characters_stay_in_order() {
    let row = |w: &str| Row { word: w.to_string(), zipf: Some(5 * ZIPF_ONE) };
    let c = Corrector::checked(vec![row("football"), row("meeting")]).unwrap();
    let bengali = |s: &str| -> String {
        s.chars().filter(|&c| ('\u{980}'..='\u{9ff}').contains(&c)).collect()
    };
    for line in ["", "\u{9bc}footbal\u{981} আমি", " FOOTBAL\tটা meetngএ ২০২৪", "Meetng, ক-খ"] {
        assert_eq!(bengali(&c.correct_text(line)), bengali(line), "{line:?}");
    }
    assert_eq!(c.correct_text(" FOOTBAL\tটা meetngএ"), "FOOTBALL টা meetngএ");
}

#[test]
fn utterances_end_in_a_pause_or_are_full() {
    let flags: Vec<bool> = (0..3600).map(|k| k < 1700 || (k % 300 > 20 && k % 300 < 80)).collect();
    let mut seg: Segmenter<u8> = Segmenter::new();
    let mut cuts = 0;
    for k in 0..flags.len() {
        if let Some(u) = seg.push_forced(&[0; FRAME], flags[k]) {
            cuts += 1;
            let pause = flags[k + 1 - 38..=k].iter().all(|v| !v);
            assert!(pause || u.len() >= 400_000, "cut for no reason at frame {k}");
        }
    }
    assert!(cuts > 3);
}
