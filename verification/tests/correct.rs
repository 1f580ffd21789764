use kotha::correct::{
    core_bounds, ed_budget, is_latin, recase, reshape, Corrector, KNOWN_FLOOR, MARGIN, ZIPF_ONE,
};
use kotha::dictionary::{dictionary_rows, Row};
use kotha::distance::levenshtein_within;

const DICT: &str = "\
ambassador\t4.21
and\t7.41
another\t5.72
band\t4.97
character\t5.01
collaboration\t4.25
creator\t4.27
exam\t4.41
example\t5.42
football\t5.29
for\t7.01
form\t5.42
grammer\t2.56
had\t6.52
hall\t4.96
hand\t5.4
happy\t5.51
has\t6.68
hat\t4.65
hello\t4.84
lab\t4.5
meal\t4.63
meeting\t5.21
mill\t4.38
the\t7.73
then\t6.28
weak\t4.68
year\t5.96
years\t5.96
you\t7.49
";

fn units(zipf: f32) -> i64 {
    (zipf as f64 * ZIPF_ONE as f64) as i64
}

fn rows(dict: &str) -> Vec<Row> {
    dictionary_rows(dict)
        .into_iter()
        .map(|(word, zipf)| Row { word, zipf: zipf.parse::<f32>().ok().map(units) })
        .collect()
}

fn corrector() -> Corrector {
    Corrector::checked(rows(DICT)).expect("the dictionary is sorted")
}

#[test]
fn guarantees() {
    let c = corrector();

    assert_eq!(c.correct_token("footbal"), "football");
    assert_eq!(c.correct_token("examp"), "exam");

    for t in ["আমি", "ফাংশন", "গ্রামার", "এর"] {
        assert_eq!(c.correct_token(t), t);
    }
    assert_eq!(c.correct_token("student-এর"), "student-এর");

    for t in ["then", "hand", "band", "form", "meal", "meeting"] {
        assert_eq!(c.correct_token(t), t);
    }
    assert_eq!(c.correct_token("mill"), "mill");

    assert!(c.zipf("grammer") > KNOWN_FLOOR);
    assert_eq!(c.correct_token("grammer"), "grammer");

    for t in ["hal", "gim", "ead", "psr"] {
        assert_eq!(c.correct_token(t), t);
    }

    assert_eq!(c.correct_token("ambacerer"), "ambacerer");

    assert_eq!(c.correct_token("annother"), "another");
    assert_eq!(c.correct_token("colloberation"), "collaboration");

    assert_eq!(c.correct_token("yeas"), "year");
    assert_eq!(c.zipf("year"), c.zipf("years"));

    assert_eq!(c.correct_token("carector"), "creator");
}

#[test]
fn whole_lines_keep_everything_but_the_misspelling() {
    let c = corrector();

    assert_eq!(c.correct_text("আমার footbal টা weak"), "আমার football টা weak");
    assert_eq!(
        c.correct_text("hello footbal, আমি examp দিব।"),
        "hello football, আমি exam দিব।"
    );
    assert_eq!(c.correct_text("Footbal FOOTBAL Meeting"), "Football FOOTBALL Meeting");
    assert_eq!(c.correct_text("আমি ভালো আছি।"), "আমি ভালো আছি।");
}

#[test]
fn distance_respects_the_cutoff() {
    assert_eq!(levenshtein_within("kitten", "sitting", 3), Some(3));
    assert_eq!(levenshtein_within("kitten", "sitting", 2), None);
    assert_eq!(levenshtein_within("abc", "abc", 0), Some(0));
}

#[test]
fn distance_at_the_edges() {
    assert_eq!(levenshtein_within("", "", 0), Some(0));
    assert_eq!(levenshtein_within("", "abc", 3), Some(3));
    assert_eq!(levenshtein_within("abc", "", 2), None);
    assert_eq!(levenshtein_within("ক", "খ", 1), Some(1));
    assert_eq!(levenshtein_within("flaw", "lawn", usize::MAX), Some(2));
    assert_eq!(levenshtein_within("lawn", "flaw", 2), Some(2));
    assert_eq!(levenshtein_within("aaaa", "bbbb", 1), None);
    // Going by way of "sitten" is no shorter than going straight.
    let direct = levenshtein_within("kitten", "sitting", 9).unwrap();
    let by = levenshtein_within("kitten", "sitten", 9).unwrap()
        + levenshtein_within("sitten", "sitting", 9).unwrap();
    assert!(direct <= by);
}

#[test]
fn punctuation_alone_is_left_as_it_is() {
    let c = corrector();
    assert_eq!(c.correct_text("hello - footbal ... —"), "hello - football ... —");
    assert_eq!(c.correct_text("  (footbal!)  "), "(football!)");
    assert_eq!(c.correct_text(""), "");
    assert_eq!(c.correct_text("   \t\n "), "");
}

#[test]
fn scripts_decide_what_may_be_touched() {
    assert!(is_latin("footbal"));
    assert!(is_latin("it's"));
    assert!(!is_latin("আমি"));
    assert!(!is_latin("student-এর"));
    assert!(!is_latin("1234"));
    assert!(!is_latin(""));
    assert!(is_latin("é-a"));
    assert!(!is_latin("a\u{0980}"));
    assert!(!is_latin("a\u{09ff}"));
    assert!(is_latin("a\u{097f}"));
    assert!(is_latin("a\u{0a00}"));
}

#[test]
fn budgets_grow_with_length() {
    let got: Vec<usize> = (0..9).map(ed_budget).collect();
    assert_eq!(got, vec![0, 0, 0, 0, 1, 1, 2, 2, 2]);
}

#[test]
fn casing_is_given_back() {
    assert_eq!(recase("Footbal", "football"), "Football");
    assert_eq!(recase("FOOTBAL", "football"), "FOOTBALL");
    assert_eq!(recase("footbal", "football"), "football");
    assert_eq!(recase("fooTBAL", "football"), "football");
    assert_eq!(recase("F", "football"), "Football");
    assert_eq!(recase("Strasse", "straße"), "Straße");
    assert_eq!(recase("STRASSE", "straße"), "STRASSE");
    assert_eq!(recase("Xx", "ßa"), "SSa");
    assert_eq!(recase("", "football"), "football");
    assert_eq!(recase("Footbal", ""), "");
}

#[test]
fn shapes_are_put_together_from_their_parts() {
    assert_eq!(reshape(true, true, "abc", "ABC", "A"), "ABC");
    assert_eq!(reshape(true, false, "abc", "ABC", "A"), "Abc");
    assert_eq!(reshape(false, true, "abc", "ABC", "A"), "abc");
    assert_eq!(reshape(false, false, "abc", "ABC", "A"), "abc");
    assert_eq!(reshape(true, false, "", "", ""), "");
}

#[test]
fn cores_stand_between_punctuation() {
    assert_eq!(core_bounds(&vec![false, true, false, true, false, false]), (1, 4));
    assert_eq!(core_bounds(&vec![true]), (0, 1));
    assert_eq!(core_bounds(&vec![false, false]), (2, 0));
    assert_eq!(core_bounds(&vec![]), (0, 0));
}

#[test]
fn a_core_is_corrected_from_its_lowercase_form() {
    let c = corrector();
    assert_eq!(c.correct_core("FOOTBAL", "footbal"), "FOOTBALL");
    assert_eq!(c.correct_core("Meeting", "meeting"), "Meeting");
    // The İ of İbcd is two characters in lowercase; the token that is looked up is that form.
    assert_eq!(c.correct_text("İyou"), "İyou");
}

#[test]
fn the_dictionary_text_is_read_line_by_line() {
    let got = dictionary_rows("a\t1\r\nno tab\nb\t2\t3\n\nc\t\nd\t4\r");
    let want: Vec<(String, String)> = [("a", "1"), ("b", "2\t3"), ("c", ""), ("d", "4\r")]
        .iter()
        .map(|(a, b)| (a.to_string(), b.to_string()))
        .collect();
    assert_eq!(got, want);
    assert_eq!(dictionary_rows(""), vec![]);
}

#[test]
fn rows_without_a_number_are_dropped() {
    let c = Corrector::checked(rows("abc\tx\nabd\t3.0\nabe\t2.5\n")).unwrap();
    assert_eq!(c.len(), 2);
    assert_eq!(c.zipf("abc"), 0);
    assert_eq!(c.zipf("abd"), 3 * ZIPF_ONE);
    assert_eq!(c.zipf("abe"), KNOWN_FLOOR);
}

#[test]
fn an_unsorted_dictionary_is_refused() {
    assert!(Corrector::checked(rows("b\t1\na\t2\n")).is_none());
    assert!(Corrector::checked(rows("a\t1\na\t2\n")).is_none());
    assert!(Corrector::checked(rows("a\t1\nab\t2\nb\t1\n")).is_some());
    assert!(Corrector::checked(rows("")).is_some());
}

#[test]
fn the_floor_and_the_margin_hold_back_corrections() {
    // At the floor a word is attested, just below it is not.
    let at = Corrector::checked(rows("abcd\t6.0\nabce\t2.5\n")).unwrap();
    assert_eq!(at.correct_token("abce"), "abce");
    let below = Corrector::checked(rows("abcd\t6.0\nabce\t2.49\n")).unwrap();
    assert_eq!(below.correct_token("abce"), "abcd");
    // The nearest word is the only one considered, and it needs the margin.
    let near = Corrector::checked(rows("abcdefg\t1.5\nabcdefgh\t2.4\n")).unwrap();
    assert_eq!(near.correct_token("abcdefg"), "abcdefg");
    let enough = Corrector::checked(rows("abcdefg\t1.25\nabcdefgh\t2.25\n")).unwrap();
    assert_eq!(enough.correct_token("abcdefg"), "abcdefgh");
}

#[test]
fn the_margin_is_tested_in_single_precision() {
    for (a, b) in [(1.4f32, 2.4f32), (0.1, 1.1), (1.1, 2.1), (0.7, 1.7), (1.3, 2.3), (0.95, 1.95)] {
        assert_eq!(b - a >= 1.0, units(b) - units(a) >= MARGIN, "{a} and {b}");
    }
    let just = f32::from_bits(1.0f32.to_bits() - 1);
    assert!(units(just) < MARGIN);
    assert!(units(1.0) >= MARGIN);
}

#[test]
fn ties_go_to_the_more_common_then_to_the_earlier() {
    let common = Corrector::checked(rows("abcda\t3.0\nabcdb\t4.0\n")).unwrap();
    assert_eq!(common.correct_token("abcdx"), "abcdb");
    let nearer = Corrector::checked(rows("abcdex\t3.0\nabcdyz\t7.0\n")).unwrap();
    assert_eq!(nearer.correct_token("abcdey"), "abcdex");
    let earlier = Corrector::checked(rows("abcda\t3.0\nabcdb\t3.0\n")).unwrap();
    assert_eq!(earlier.correct_token("abcdx"), "abcda");
}

#[test]
fn a_filter_line_is_corrected_token_by_token() {
    let c = corrector();
    assert_eq!(c.correct_tokens("hello  footbal আমি examp"), "hello football আমি exam");
    // A bare token lookup takes the comma for a letter.
    assert_eq!(c.correct_tokens("footbal,"), "football");
}
