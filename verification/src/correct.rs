//! The spelling corrector: English tokens that the dictionary does not attest are moved to the
//! nearest word that is clearly more common, and nothing else is touched.
//!
//! A word's figure is its zipf frequency, a single-precision number, held as a count of 2^-40ths:
//! exactly where it is 2^-17 or more, and else cut off below 2^-40.

use crate::dictionary;
use crate::dictionary::{Entry, Lexeme, Row};
use crate::distance;
use crate::text;
use crate::unicode;
use vstd::prelude::*;

verus! {

/// A zipf frequency of 1.
pub const ZIPF_ONE: i64 = 1099511627776;

/// Below this figure a token may be corrected; at or above it, never: a zipf frequency of 2.5.
pub const KNOWN_FLOOR: i64 = 2748779069440;

/// How much more common a candidate must be before it is taken: a difference that is 1.0 or more
/// once it is rounded to single precision. The rounding lifts what lies within 2^-25 below 1.0.
pub const MARGIN: i64 = 1099511595008;

pub open spec fn ascii_letter(c: char) -> bool {
    ('a' <= c && c <= 'z') || ('A' <= c && c <= 'Z')
}

/// The Bengali block, U+0980 to U+09FF.
pub open spec fn bengali(c: char) -> bool {
    0x0980 <= c as u32 <= 0x09ff
}

/// A token that may be corrected: it has an ASCII letter and no Bengali character.
pub open spec fn latin(token: Seq<char>) -> bool {
    &&& exists|i: int| 0 <= i < token.len() && ascii_letter(#[trigger] token[i])
    &&& forall|i: int| 0 <= i < token.len() ==> !bengali(#[trigger] token[i])
}

/// How many edits a token of `n` characters may be moved by.
pub open spec fn budget(n: nat) -> nat {
    if n <= 3 {
        0
    } else if n <= 5 {
        1
    } else {
        2
    }
}

/// Another word of the dictionary within the token's budget.
pub open spec fn candidate(dict: Seq<Lexeme>, token: Seq<char>, i: int) -> bool {
    &&& 0 <= i < dict.len()
    &&& dict[i].word != token
    &&& distance::edit_distance(token, dict[i].word) <= budget(token.len())
}

/// The word at `i` goes before the one at `j`: it is nearer, or as near and more common, or equal
/// in both and earlier in the dictionary.
pub open spec fn better(dict: Seq<Lexeme>, token: Seq<char>, i: int, j: int) -> bool {
    let di = distance::edit_distance(token, dict[i].word);
    let dj = distance::edit_distance(token, dict[j].word);
    di < dj || (di == dj && (dict[i].zipf > dict[j].zipf || (dict[i].zipf == dict[j].zipf && i
        < j)))
}

/// The candidate that goes before every other one.
pub open spec fn is_best(dict: Seq<Lexeme>, token: Seq<char>, i: int) -> bool {
    &&& candidate(dict, token, i)
    &&& forall|j: int| #[trigger] candidate(dict, token, j) && j != i ==> better(dict, token, i, j)
}

/// What a bare lowercase token becomes.
pub open spec fn corrected(dict: Seq<Lexeme>, token: Seq<char>) -> Seq<char> {
    let here = dictionary::zipf_of(dict, token);
    if !latin(token) || here >= KNOWN_FLOOR || !(exists|i: int| candidate(dict, token, i)) {
        token
    } else {
        let i = choose|i: int| is_best(dict, token, i);
        if dict[i].zipf - here >= MARGIN {
            dict[i].word
        } else {
            token
        }
    }
}

/// Every element replaced by what std's tables class it as.
pub open spec fn classes(word: Seq<char>) -> Seq<bool> {
    Seq::new(word.len(), |i: int| unicode::alphanumeric(word[i]))
}

/// How many elements stand before the first `true`.
pub open spec fn head_len(flags: Seq<bool>) -> nat
    decreases flags.len(),
{
    if flags.len() == 0 || flags[0] {
        0
    } else {
        1 + head_len(flags.skip(1))
    }
}

/// How many elements stand after the last `true`.
pub open spec fn tail_len(flags: Seq<bool>) -> nat
    decreases flags.len(),
{
    if flags.len() == 0 || flags.last() {
        0
    } else {
        1 + tail_len(flags.drop_last())
    }
}

/// Where the core of a word begins.
pub open spec fn core_start(word: Seq<char>) -> int {
    head_len(classes(word)) as int
}

/// Where the core of a word ends.
pub open spec fn core_end(word: Seq<char>) -> int {
    word.len() - tail_len(classes(word))
}

/// A word without the punctuation at either end; empty where it is all punctuation.
pub open spec fn core_of(word: Seq<char>) -> Seq<char> {
    if core_start(word) >= word.len() {
        seq![]
    } else {
        word.subrange(core_start(word), core_end(word))
    }
}

/// What a core becomes, given its lowercase form: itself where the token stays as it is, else the
/// correction in the core's own casing.
pub open spec fn corrected_core(
    dict: Seq<Lexeme>,
    core: Seq<char>,
    lower: Seq<char>,
) -> Seq<char> {
    if corrected(dict, lower) == lower {
        core
    } else {
        recased(core, corrected(dict, lower))
    }
}

/// What a word of a line becomes.
pub open spec fn corrected_word(dict: Seq<Lexeme>, word: Seq<char>) -> Seq<char> {
    let core = core_of(word);
    if !latin(core) {
        word
    } else {
        word.take(core_start(word)) + corrected_core(dict, core, unicode::lower_text(core))
            + word.skip(core_end(word))
    }
}

/// What the words of a line become, one by one.
pub open spec fn corrected_pieces(dict: Seq<Lexeme>, line: Seq<char>) -> Seq<Seq<char>> {
    Seq::new(text::words(line).len(), |i: int| corrected_word(dict, text::words(line)[i]))
}

/// What a line becomes: its words one by one, with single spaces.
pub open spec fn corrected_line(dict: Seq<Lexeme>, line: Seq<char>) -> Seq<char> {
    text::join(corrected_pieces(dict, line))
}

/// What a line of bare lowercase tokens becomes.
pub open spec fn corrected_tokens(dict: Seq<Lexeme>, line: Seq<char>) -> Seq<char> {
    text::join(
        Seq::new(text::words(line).len(), |i: int| corrected(dict, text::words(line)[i])),
    )
}

pub open spec fn starts_upper(s: Seq<char>) -> bool {
    s.len() > 0 && unicode::uppercase(s[0])
}

/// More than one character, and all after the first are uppercase.
pub open spec fn rest_upper(s: Seq<char>) -> bool {
    s.len() > 1 && forall|i: int| 1 <= i < s.len() ==> unicode::uppercase(#[trigger] s[i])
}

/// `fixed` with the capitalisation shape of `original`.
pub open spec fn recased(original: Seq<char>, fixed: Seq<char>) -> Seq<char> {
    reshaped(
        starts_upper(original),
        rest_upper(original),
        fixed,
        unicode::upper_text(fixed),
        if fixed.len() > 0 {
            unicode::upper_char(fixed[0])
        } else {
            seq![]
        },
    )
}

/// `fixed` in one of three shapes: all uppercase, its first character uppercase, or as it is.
pub open spec fn reshaped(
    first: bool,
    rest: bool,
    fixed: Seq<char>,
    whole_upper: Seq<char>,
    first_upper: Seq<char>,
) -> Seq<char> {
    if first && rest {
        whole_upper
    } else if first && fixed.len() > 0 {
        first_upper + fixed.skip(1)
    } else {
        fixed
    }
}

/// Edit budget by token length. Short tokens are within reach of half the dictionary at two
/// edits, so they get fewer.
pub fn ed_budget(n: usize) -> (r: usize)
    ensures
        r == budget(n as nat),
{
    if n <= 3 {
        0
    } else if n <= 5 {
        1
    } else {
        2
    }
}

fn latin_chars(token: &[char]) -> (r: bool)
    ensures
        r == latin(token@),
{
    let mut has_latin: bool = false;
    for i in 0..token.len()
        invariant
            has_latin == exists|k: int| 0 <= k < i && ascii_letter(#[trigger] token@[k]),
            forall|k: int| 0 <= k < i ==> !bengali(#[trigger] token@[k]),
    {
        let c: char = token[i];
        let u: u32 = c as u32;
        if 0x0980 <= u && u <= 0x09ff {
            assert(bengali(token@[i as int]));
            return false;
        }
        let letter: bool = ('a' <= c && c <= 'z') || ('A' <= c && c <= 'Z');
        if letter {
            assert(ascii_letter(token@[i as int]));
            has_latin = true;
        }
    }
    has_latin
}

/// Whether the corrector may touch this token: it has an ASCII letter and no Bengali character.
/// A token that mixes the two scripts is left alone.
pub fn is_latin(token: &str) -> (r: bool)
    ensures
        r == latin(token@),
{
    let chars = text::chars_of(token);
    latin_chars(chars.as_slice())
}

/// One of three shapes of `fixed`, whose uppercase forms are given.
pub fn reshape(first: bool, rest: bool, fixed: &str, whole_upper: &str, first_upper: &str) -> (r:
    String)
    ensures
        r@ == reshaped(first, rest, fixed@, whole_upper@, first_upper@),
{
    if first && rest {
        whole_upper.to_owned()
    } else if first {
        let chars = text::chars_of(fixed);
        if chars.len() == 0 {
            return fixed.to_owned();
        }
        let mut out = first_upper.to_owned();
        let tail = text::slice_of(chars.as_slice(), 1, chars.len());
        text::push_chars(&mut out, tail.as_slice());
        assert(tail@ =~= fixed@.skip(1));
        out
    } else {
        fixed.to_owned()
    }
}

/// `fixed` with the capitalisation shape that `original` had.
pub fn recase(original: &str, fixed: &str) -> (r: String)
    ensures
        r@ == recased(original@, fixed@),
{
    let chars = text::chars_of(original);
    let first: bool = chars.len() > 0 && chars[0].is_uppercase();
    let mut rest: bool = chars.len() > 1;
    let mut i: usize = 1;
    while rest && i < chars.len()
        invariant
            1 <= i,
            chars@ == original@,
            rest ==> i <= chars@.len() && chars@.len() > 1 && forall|k: int|
                1 <= k < i ==> unicode::uppercase(#[trigger] chars@[k]),
            !rest ==> !rest_upper(chars@),
        decreases chars@.len() - i + (if rest {
            1int
        } else {
            0int
        }),
    {
        if chars[i].is_uppercase() {
            i = i + 1;
        } else {
            assert(!unicode::uppercase(chars@[i as int]));
            rest = false;
        }
    }
    assert(rest == rest_upper(original@));
    let whole_upper = fixed.to_uppercase();
    let fixed_chars = text::chars_of(fixed);
    let first_upper = if fixed_chars.len() > 0 {
        unicode::upper_of_char(fixed_chars[0])
    } else {
        String::new()
    };
    reshape(first, rest, fixed, whole_upper.as_str(), first_upper.as_str())
}

proof fn lemma_head_len_is(flags: Seq<bool>, n: int)
    requires
        0 <= n <= flags.len(),
        forall|i: int| 0 <= i < n ==> !(#[trigger] flags[i]),
        n < flags.len() ==> flags[n],
    ensures
        head_len(flags) == n,
    decreases n,
{
    if n > 0 {
        let rest = flags.skip(1);
        assert(!flags[0]);
        assert forall|i: int| 0 <= i < n - 1 implies !(#[trigger] rest[i]) by {
            assert(rest[i] == flags[i + 1]);
        }
        lemma_head_len_is(rest, n - 1);
    }
}

proof fn lemma_tail_len_is(flags: Seq<bool>, end: int)
    requires
        0 <= end <= flags.len(),
        forall|i: int| end <= i < flags.len() ==> !(#[trigger] flags[i]),
        end > 0 ==> flags[end - 1],
    ensures
        flags.len() - tail_len(flags) == end,
    decreases flags.len() - end,
{
    if end < flags.len() {
        let rest = flags.drop_last();
        assert(!flags[flags.len() - 1]);
        lemma_tail_len_is(rest, end);
    }
}

/// Where the core of a word begins and ends, given which of its characters are letters or digits.
pub fn core_bounds(flags: &Vec<bool>) -> (r: (usize, usize))
    ensures
        r.0 == head_len(flags@),
        r.1 == flags@.len() - tail_len(flags@),
        r.0 < flags@.len() ==> r.0 < r.1 <= flags@.len(),
        r.0 <= flags@.len(),
{
    let mut start: usize = 0;
    while start < flags.len() && !flags[start]
        invariant
            start <= flags@.len(),
            forall|k: int| 0 <= k < start ==> !(#[trigger] flags@[k]),
        ensures
            start < flags@.len() ==> flags@[start as int],
        decreases flags@.len() - start,
    {
        start = start + 1;
    }
    let mut end: usize = flags.len();
    while end > 0 && !flags[end - 1]
        invariant
            end <= flags@.len(),
            forall|k: int| end <= k < flags@.len() ==> !(#[trigger] flags@[k]),
        ensures
            end > 0 ==> flags@[end - 1],
        decreases end,
    {
        end = end - 1;
    }
    proof {
        lemma_head_len_is(flags@, start as int);
        lemma_tail_len_is(flags@, end as int);
        if start < flags@.len() && end <= start {
            assert(!flags@[start as int]);
        }
    }
    (start, end)
}

/// Words and how common each is, in dictionary order.
pub struct Corrector {
    entries: Vec<Entry>,
}

impl Corrector {
    /// The dictionary.
    pub closed spec fn dict(self) -> Seq<Lexeme> {
        dictionary::lexemes(self.entries@)
    }

    /// The entries are in order and each has its characters at hand.
    pub closed spec fn wf(self) -> bool {
        &&& dictionary::entries_wf(self.entries@)
        &&& dictionary::sorted(self.dict())
    }

    /// The dictionary is in dictionary order: of equal candidates the first is the first in the
    /// alphabet.
    pub proof fn law_dictionary_is_sorted(&self)
        requires
            self.wf(),
        ensures
            dictionary::sorted(self.dict()),
    {
    }

    /// A corrector on the rows that carry a number; the others are dropped. The rows must be in
    /// dictionary order.
    pub fn new(rows: Vec<Row>) -> (r: Self)
        requires
            dictionary::sorted(dictionary::kept(rows@)),
        ensures
            r.wf(),
            r.dict() == dictionary::kept(rows@),
    {
        Corrector { entries: dictionary::entries_of(rows) }
    }

    /// As `new`, but `None` where the rows are not in dictionary order.
    pub fn checked(rows: Vec<Row>) -> (r: Option<Self>)
        ensures
            r.is_some() == dictionary::sorted(dictionary::kept(rows@)),
            r.is_some() ==> r.unwrap().wf() && r.unwrap().dict() == dictionary::kept(rows@),
    {
        let entries = dictionary::entries_of(rows);
        if dictionary::is_sorted(&entries) {
            Some(Corrector { entries })
        } else {
            None
        }
    }

    /// How many words the dictionary holds.
    pub fn len(&self) -> (r: usize)
        ensures
            r == self.dict().len(),
    {
        self.entries.len()
    }

    fn zipf_chars(&self, token: &[char]) -> (r: i64)
        requires
            self.wf(),
        ensures
            r == dictionary::zipf_of(self.dict(), token@),
    {
        match dictionary::lookup(&self.entries, token) {
            Some(i) => {
                proof {
                    dictionary::law_zipf_of_entry(self.dict(), i as int);
                }
                self.entries[i].zipf
            },
            None => 0,
        }
    }

    /// How common a token is; 0 where the dictionary lacks it.
    pub fn zipf(&self, token: &str) -> (r: i64)
        requires
            self.wf(),
        ensures
            r == dictionary::zipf_of(self.dict(), token@),
    {
        let chars = text::chars_of(token);
        self.zipf_chars(chars.as_slice())
    }

    /// The best candidate for a token whose budget is `limit`.
    fn best(&self, token: &[char], limit: usize) -> (r: Option<usize>)
        requires
            self.wf(),
            limit == budget(token@.len()),
        ensures
            match r {
                Some(i) => is_best(self.dict(), token@, i as int),
                None => forall|i: int| !candidate(self.dict(), token@, i),
            },
    {
        let ghost dict = self.dict();
        let mut best: Option<(usize, usize)> = None;
        for k in 0..self.entries.len()
            invariant
                self.wf(),
                dict == self.dict(),
                limit == budget(token@.len()),
                match best {
                    Some((b, d)) => {
                        &&& b < k
                        &&& candidate(dict, token@, b as int)
                        &&& d == distance::edit_distance(token@, dict[b as int].word)
                        &&& forall|j: int|
                            #[trigger] candidate(dict, token@, j) && j < k && j != b ==> better(
                                dict,
                                token@,
                                b as int,
                                j,
                            )
                    },
                    None => forall|j: int| #[trigger] candidate(dict, token@, j) ==> j >= k,
                },
        {
            let entry: &Entry = &self.entries[k];
            proof {
                assert(self.entries@[k as int].wf());
                assert(dict[k as int].word == entry.chars@);
            }
            if !text::same_chars(entry.chars.as_slice(), token) {
                match distance::distance_within(token, entry.chars.as_slice(), limit) {
                    Some(d) => {
                        assert(candidate(dict, token@, k as int));
                        match best {
                            None => {
                                best = Some((k, d));
                            },
                            Some((b, bd)) => {
                                if d < bd || (d == bd && entry.zipf > self.entries[b].zipf) {
                                    best = Some((k, d));
                                }
                            },
                        }
                    },
                    None => {
                        assert(!candidate(dict, token@, k as int));
                    },
                }
            } else {
                assert(!candidate(dict, token@, k as int));
            }
        }
        match best {
            Some((b, _)) => Some(b),
            None => None,
        }
    }

    /// The token unchanged, or a strictly better supported word.
    ///
    /// Expects a bare lowercase token: no punctuation, no capitals. For anything a user will see
    /// there is [`Corrector::correct_text`].
    pub fn correct_token<'a>(&'a self, token: &'a str) -> (r: &'a str)
        requires
            self.wf(),
        ensures
            r@ == corrected(self.dict(), token@),
    {
        let chars = text::chars_of(token);
        if !latin_chars(chars.as_slice()) {
            return token;
        }
        let here: i64 = self.zipf_chars(chars.as_slice());
        if here >= KNOWN_FLOOR {
            return token;
        }
        let limit: usize = ed_budget(chars.len());
        if limit == 0 {
            proof {
                assert forall|i: int| !candidate(self.dict(), token@, i) by {
                    if candidate(self.dict(), token@, i) {
                        distance::law_distance_zero(token@, self.dict()[i].word);
                    }
                }
            }
            return token;
        }
        match self.best(chars.as_slice(), limit) {
            Some(i) => {
                proof {
                    law_best_is_unique(
                        self.dict(),
                        token@,
                        i as int,
                        choose|k: int| is_best(self.dict(), token@, k),
                    );
                }
                if self.entries[i].zipf as i128 - here as i128 >= MARGIN as i128 {
                    self.entries[i].word.as_str()
                } else {
                    token
                }
            },
            None => token,
        }
    }

    /// A core given with its lowercase form: itself where the token stays as it is, else the
    /// correction in the core's own casing.
    pub fn correct_core(&self, core: &str, lower: &str) -> (r: String)
        requires
            self.wf(),
        ensures
            r@ == corrected_core(self.dict(), core@, lower@),
    {
        let fixed = self.correct_token(lower);
        if text::same_text(fixed, lower) {
            core.to_owned()
        } else {
            recase(core, fixed)
        }
    }

    /// One word of a line: its punctuation stays, and its core is corrected.
    pub fn correct_word(&self, word: &[char]) -> (r: String)
        requires
            self.wf(),
        ensures
            r@ == corrected_word(self.dict(), word@),
    {
        let mut flags: Vec<bool> = Vec::new();
        for i in 0..word.len()
            invariant
                flags@ == classes(word@).take(i as int),
        {
            let c: char = word[i];
            flags.push(c.is_alphanumeric());
            assert(flags@ =~= classes(word@).take(i + 1));
        }
        assert(flags@ =~= classes(word@));
        let (start, end) = core_bounds(&flags);
        if start >= word.len() {
            assert(!latin(core_of(word@)));
            return text::text_of(word);
        }
        let core = text::slice_of(word, start, end);
        assert(core@ == core_of(word@));
        if !latin_chars(core.as_slice()) {
            return text::text_of(word);
        }
        let core_text = text::text_of(core.as_slice());
        let lower = core_text.as_str().to_lowercase();
        let fixed = self.correct_core(core_text.as_str(), lower.as_str());
        let head = text::slice_of(word, 0, start);
        let tail = text::slice_of(word, end, word.len());
        let mut out = text::text_of(head.as_slice());
        out.append(fixed.as_str());
        text::push_chars(&mut out, tail.as_slice());
        assert(head@ =~= word@.take(start as int));
        assert(tail@ =~= word@.skip(end as int));
        out
    }

    /// Corrects the English in a line of dictated text and leaves everything else as it was, but
    /// that runs of whitespace become single spaces.
    pub fn correct_text(&self, line: &str) -> (r: String)
        requires
            self.wf(),
        ensures
            r@ == corrected_line(self.dict(), line@),
    {
        let ws = text::split_words(line);
        let mut out: Vec<String> = Vec::new();
        for i in 0..ws.len()
            invariant
                self.wf(),
                text::views(ws@) == text::words(line@),
                out@.len() == i,
                forall|k: int|
                    0 <= k < i ==> (#[trigger] out@[k])@ == corrected_word(self.dict(), ws@[k]@),
        {
            let fixed = self.correct_word(ws[i].as_slice());
            out.push(fixed);
        }
        proof {
            let want = corrected_pieces(self.dict(), line@);
            assert forall|k: int| 0 <= k < out@.len() implies text::texts(out@)[k] == want[k] by {
                assert(text::words(line@)[k] == text::views(ws@)[k]);
            }
            assert(text::texts(out@) =~= want);
        }
        text::join_texts(&out)
    }

    /// Corrects a line of bare lowercase tokens, token by token.
    pub fn correct_tokens(&self, line: &str) -> (r: String)
        requires
            self.wf(),
        ensures
            r@ == corrected_tokens(self.dict(), line@),
    {
        let ws = text::split_words(line);
        let mut out: Vec<String> = Vec::new();
        for i in 0..ws.len()
            invariant
                self.wf(),
                text::views(ws@) == text::words(line@),
                out@.len() == i,
                forall|k: int|
                    0 <= k < i ==> (#[trigger] out@[k])@ == corrected(self.dict(), ws@[k]@),
        {
            let token = text::text_of(ws[i].as_slice());
            let fixed = self.correct_token(token.as_str());
            out.push(fixed.to_owned());
        }
        proof {
            let want = Seq::new(
                text::words(line@).len(),
                |i: int| corrected(self.dict(), text::words(line@)[i]),
            );
            assert forall|k: int| 0 <= k < out@.len() implies text::texts(out@)[k] == want[k] by {
                assert(text::words(line@)[k] == text::views(ws@)[k]);
            }
            assert(text::texts(out@) =~= want);
        }
        text::join_texts(&out)
    }
}

/// There is at most one best candidate.
pub proof fn law_best_is_unique(dict: Seq<Lexeme>, token: Seq<char>, i: int, j: int)
    requires
        is_best(dict, token, i),
        is_best(dict, token, j),
    ensures
        i == j,
{
    if i != j {
        assert(better(dict, token, i, j));
        assert(better(dict, token, j, i));
    }
}

/// The best of the candidates below `n`.
proof fn lemma_best_below(dict: Seq<Lexeme>, token: Seq<char>, n: int) -> (b: int)
    requires
        0 <= n <= dict.len(),
        exists|i: int| i < n && #[trigger] candidate(dict, token, i),
    ensures
        b < n,
        candidate(dict, token, b),
        forall|j: int|
            #[trigger] candidate(dict, token, j) && j < n && j != b ==> better(dict, token, b, j),
    decreases n,
{
    if exists|i: int| i < n - 1 && #[trigger] candidate(dict, token, i) {
        let b = lemma_best_below(dict, token, n - 1);
        if candidate(dict, token, n - 1) && !better(dict, token, b, n - 1) {
            n - 1
        } else {
            b
        }
    } else {
        n - 1
    }
}

/// Wherever there is a candidate there is a best one.
pub proof fn law_best_exists(dict: Seq<Lexeme>, token: Seq<char>)
    requires
        exists|i: int| candidate(dict, token, i),
    ensures
        exists|i: int| is_best(dict, token, i),
{
    let i = choose|i: int| candidate(dict, token, i);
    assert(i < dict.len() && candidate(dict, token, i));
    let b = lemma_best_below(dict, token, dict.len() as int);
    assert(is_best(dict, token, b));
}

/// A token with a Bengali character in it is never changed.
pub proof fn law_bengali_is_kept(dict: Seq<Lexeme>, token: Seq<char>)
    requires
        exists|i: int| 0 <= i < token.len() && bengali(#[trigger] token[i]),
    ensures
        corrected(dict, token) == token,
{
}

/// A token without an ASCII letter is never changed.
pub proof fn law_other_scripts_are_kept(dict: Seq<Lexeme>, token: Seq<char>)
    requires
        forall|i: int| 0 <= i < token.len() ==> !ascii_letter(#[trigger] token[i]),
    ensures
        corrected(dict, token) == token,
{
}

/// A token at or above the floor is never changed.
pub proof fn law_attested_is_kept(dict: Seq<Lexeme>, token: Seq<char>)
    requires
        dictionary::zipf_of(dict, token) >= KNOWN_FLOOR,
    ensures
        corrected(dict, token) == token,
{
}

/// A token of three characters or fewer is never changed.
pub proof fn law_short_is_kept(dict: Seq<Lexeme>, token: Seq<char>)
    requires
        token.len() <= 3,
    ensures
        corrected(dict, token) == token,
{
    assert forall|i: int| !candidate(dict, token, i) by {
        if candidate(dict, token, i) {
            distance::law_distance_zero(token, dict[i].word);
        }
    }
}

/// A change is always to a word of the dictionary, one or two edits away, that is more common
/// than the token by the margin at least.
pub proof fn law_correction_is_supported(dict: Seq<Lexeme>, token: Seq<char>)
    requires
        corrected(dict, token) != token,
    ensures
        exists|i: int|
            {
                &&& #[trigger] is_best(dict, token, i)
                &&& corrected(dict, token) == dict[i].word
                &&& dict[i].zipf >= dictionary::zipf_of(dict, token) + MARGIN
            },
        1 <= distance::edit_distance(token, corrected(dict, token)) <= 2,
{
    law_best_exists(dict, token);
    let i = choose|i: int| is_best(dict, token, i);
    assert(is_best(dict, token, i));
    distance::law_distance_zero(token, dict[i].word);
}

/// The punctuation at either end of a word stays, whatever becomes of its core.
pub proof fn law_punctuation_is_kept(dict: Seq<Lexeme>, word: Seq<char>)
    ensures
        core_start(word) <= word.len(),
        core_start(word) < word.len() ==> {
            &&& core_start(word) < core_end(word) <= word.len()
            &&& exists|mid: Seq<char>| #[trigger]
                (word.take(core_start(word)) + mid + word.skip(core_end(word))) == corrected_word(
                    dict,
                    word,
                )
        },
{
    lemma_core_bounds(word);
    if core_start(word) < word.len() {
        let core = core_of(word);
        if !latin(core) {
            assert(word.take(core_start(word)) + core + word.skip(core_end(word)) =~= word);
        } else {
            let mid = corrected_core(dict, core, unicode::lower_text(core));
            assert(word.take(core_start(word)) + mid + word.skip(core_end(word))
                == corrected_word(dict, word));
        }
    }
}

proof fn lemma_core_bounds(word: Seq<char>)
    ensures
        core_start(word) <= word.len(),
        core_start(word) < word.len() ==> core_start(word) < core_end(word) <= word.len(),
{
    lemma_head_tail(classes(word));
}

proof fn lemma_head_tail(flags: Seq<bool>)
    ensures
        head_len(flags) <= flags.len(),
        tail_len(flags) <= flags.len(),
        head_len(flags) < flags.len() ==> head_len(flags) + tail_len(flags) < flags.len(),
    decreases flags.len(),
{
    if flags.len() > 0 {
        lemma_head_tail(flags.skip(1));
        lemma_head_tail(flags.drop_last());
        if !flags[0] && !flags.last() && flags.len() > 1 {
            let mid = flags.skip(1).drop_last();
            assert(flags.drop_last().skip(1) =~= mid);
            assert(head_len(flags.drop_last()) == 1 + head_len(mid));
            lemma_head_tail(mid);
            lemma_head_drop_last(flags);
        } else if flags[0] {
            lemma_tail_stops(flags);
        }
    }
}

proof fn lemma_head_drop_last(flags: Seq<bool>)
    requires
        flags.len() > 0,
    ensures
        head_len(flags) < flags.len() - 1 ==> head_len(flags.drop_last()) == head_len(flags),
        head_len(flags.drop_last()) < flags.len() - 1 ==> head_len(flags.drop_last()) == head_len(
            flags,
        ),
        head_len(flags) == flags.len() - 1 ==> flags.last(),
    decreases flags.len(),
{
    if flags.len() > 1 && !flags[0] {
        assert(flags.skip(1).drop_last() =~= flags.drop_last().skip(1));
        lemma_head_drop_last(flags.skip(1));
    }
}

proof fn lemma_tail_stops(flags: Seq<bool>)
    requires
        flags.len() > 0,
        flags[0],
    ensures
        tail_len(flags) < flags.len(),
    decreases flags.len(),
{
    if flags.len() > 1 && !flags.last() {
        lemma_tail_stops(flags.drop_last());
    }
}

/// A word whose core stays as it is keeps its own casing: the word is unchanged.
pub proof fn law_unchanged_core_keeps_the_word(dict: Seq<Lexeme>, word: Seq<char>)
    requires
        corrected(dict, unicode::lower_text(core_of(word))) == unicode::lower_text(core_of(word)),
    ensures
        corrected_word(dict, word) == word,
{
    lemma_core_bounds(word);
    if core_start(word) < word.len() {
        assert(word.take(core_start(word)) + core_of(word) + word.skip(core_end(word)) =~= word);
    }
}

/// Of a line with no English in it only runs of whitespace change, to single spaces.
pub proof fn law_line_without_english_is_kept(dict: Seq<Lexeme>, line: Seq<char>)
    requires
        forall|i: int|
            0 <= i < text::words(line).len() ==> !latin(core_of(#[trigger] text::words(line)[i])),
    ensures
        corrected_line(dict, line) == text::join(text::words(line)),
{
    assert(corrected_pieces(dict, line) =~= text::words(line));
}

/// A line is corrected token by token: as many come out as went in, each from its own word alone,
/// and the two sides of any whitespace are corrected apart.
pub proof fn law_line_is_corrected_token_by_token(
    dict: Seq<Lexeme>,
    left: Seq<char>,
    gap: char,
    right: Seq<char>,
)
    requires
        text::white(gap),
    ensures
        corrected_pieces(dict, left).len() == text::words(left).len(),
        forall|i: int|
            0 <= i < text::words(left).len() ==> #[trigger] corrected_pieces(dict, left)[i]
                == corrected_word(dict, text::words(left)[i]),
        corrected_pieces(dict, left + seq![gap] + right) == corrected_pieces(dict, left)
            + corrected_pieces(dict, right),
{
    text::law_words_of_two_parts(left, gap, right);
    assert(corrected_pieces(dict, left + seq![gap] + right) =~= corrected_pieces(dict, left)
        + corrected_pieces(dict, right));
}

/// A word with a Bengali character in its core is unchanged.
pub proof fn law_bengali_word_is_kept(dict: Seq<Lexeme>, word: Seq<char>)
    requires
        exists|i: int| 0 <= i < core_of(word).len() && bengali(#[trigger] core_of(word)[i]),
    ensures
        corrected_word(dict, word) == word,
{
}

/// Bengali text is never touched. Wherever a line holds a Bengali character, the word around it
/// comes out unchanged; or the character stands among the punctuation at the word's head or tail,
/// and keeps its place there.
pub proof fn law_bengali_is_never_touched(dict: Seq<Lexeme>, line: Seq<char>, i: int, p: int)
    requires
        0 <= i < text::words(line).len(),
        0 <= p < text::words(line)[i].len(),
        bengali(text::words(line)[i][p]),
    ensures
        corrected_pieces(dict, line).len() == text::words(line).len(),
        ({
            let word = text::words(line)[i];
            let piece = corrected_pieces(dict, line)[i];
            ||| piece == word
            ||| p < core_start(word) && p < piece.len() && piece[p] == word[p]
            ||| {
                let from_end = word.len() - p;
                &&& core_end(word) <= p
                &&& from_end <= piece.len()
                &&& piece[piece.len() - from_end] == word[p]
            }
        }),
{
    let word = text::words(line)[i];
    lemma_core_bounds(word);
    if core_start(word) < word.len() && core_start(word) <= p < core_end(word) {
        assert(bengali(core_of(word)[p - core_start(word)]));
        law_bengali_word_is_kept(dict, word);
    }
}

/// The Bengali characters of a text, in order.
pub open spec fn bengali_of(s: Seq<char>) -> Seq<char>
    decreases s.len(),
{
    if s.len() == 0 {
        seq![]
    } else if bengali(s[0]) {
        seq![s[0]] + bengali_of(s.skip(1))
    } else {
        bengali_of(s.skip(1))
    }
}

pub open spec fn no_bengali(s: Seq<char>) -> bool {
    forall|i: int| 0 <= i < s.len() ==> !bengali(#[trigger] s[i])
}

/// The word has no Bengali character in it, in whichever case it is written.
pub open spec fn english_word(word: Seq<char>) -> bool {
    &&& no_bengali(word)
    &&& no_bengali(unicode::upper_text(word))
    &&& word.len() > 0 ==> no_bengali(unicode::upper_char(word[0]))
}

proof fn lemma_bengali_of_none(s: Seq<char>)
    requires
        no_bengali(s),
    ensures
        bengali_of(s) == Seq::<char>::empty(),
    decreases s.len(),
{
    if s.len() > 0 {
        let t = s.skip(1);
        assert forall|i: int| 0 <= i < t.len() implies !bengali(#[trigger] t[i]) by {
            assert(t[i] == s[i + 1]);
        }
        lemma_bengali_of_none(t);
    }
}

proof fn lemma_bengali_of_two(a: Seq<char>, b: Seq<char>)
    ensures
        bengali_of(a + b) == bengali_of(a) + bengali_of(b),
    decreases a.len(),
{
    if a.len() == 0 {
        assert(a + b =~= b);
        assert(bengali_of(a) + bengali_of(b) =~= bengali_of(b));
    } else {
        assert((a + b).skip(1) =~= a.skip(1) + b);
        lemma_bengali_of_two(a.skip(1), b);
        assert(bengali_of(a + b) =~= bengali_of(a) + bengali_of(b));
    }
}

proof fn lemma_bengali_of_dense(s: Seq<char>)
    ensures
        bengali_of(text::dense(s)) == bengali_of(s),
    decreases s.len(),
{
    if s.len() > 0 {
        let rest = text::dense(s.skip(1));
        lemma_bengali_of_dense(s.skip(1));
        if !text::white(s[0]) {
            assert((seq![s[0]] + rest).skip(1) =~= rest);
        }
    }
}

proof fn lemma_bengali_of_join(pieces: Seq<Seq<char>>)
    ensures
        bengali_of(text::join(pieces)) == bengali_of(text::packed(pieces)),
    decreases pieces.len(),
{
    if pieces.len() == 1 {
        assert(text::packed(pieces.skip(1)) =~= seq![]);
        assert(text::packed(pieces) =~= pieces[0]);
    } else if pieces.len() > 1 {
        let rest = pieces.skip(1);
        text::lemma_join_front(pieces);
        lemma_bengali_of_join(rest);
        lemma_bengali_of_none(seq![' ']);
        lemma_bengali_of_two(pieces[0], seq![' ']);
        lemma_bengali_of_two(pieces[0] + seq![' '], text::join(rest));
        lemma_bengali_of_two(pieces[0], text::packed(rest));
        assert(bengali_of(pieces[0]) + seq![] =~= bengali_of(pieces[0]));
    }
}

proof fn lemma_bengali_of_packed(one: Seq<Seq<char>>, other: Seq<Seq<char>>)
    requires
        one.len() == other.len(),
        forall|i: int| 0 <= i < one.len() ==> bengali_of(#[trigger] one[i]) == bengali_of(other[i]),
    ensures
        bengali_of(text::packed(one)) == bengali_of(text::packed(other)),
    decreases one.len(),
{
    if one.len() > 0 {
        let a = one.skip(1);
        let b = other.skip(1);
        assert forall|i: int| 0 <= i < a.len() implies bengali_of(#[trigger] a[i]) == bengali_of(
            b[i],
        ) by {
            assert(a[i] == one[i + 1]);
        }
        lemma_bengali_of_packed(a, b);
        lemma_bengali_of_two(one[0], text::packed(a));
        lemma_bengali_of_two(other[0], text::packed(b));
        assert(bengali_of(one[0]) == bengali_of(other[0]));
    }
}

proof fn lemma_bengali_of_word(dict: Seq<Lexeme>, word: Seq<char>)
    requires
        forall|i: int| 0 <= i < dict.len() ==> english_word(#[trigger] dict[i].word),
    ensures
        bengali_of(corrected_word(dict, word)) == bengali_of(word),
{
    let core = core_of(word);
    lemma_core_bounds(word);
    if latin(core) {
        let lower = unicode::lower_text(core);
        let mid = corrected_core(dict, core, lower);
        let head = word.take(core_start(word));
        let tail = word.skip(core_end(word));
        if corrected(dict, lower) != lower {
            law_correction_is_supported(dict, lower);
            let i = choose|i: int|
                #[trigger] is_best(dict, lower, i) && corrected(dict, lower) == dict[i].word;
            let fixed = dict[i].word;
            assert(english_word(dict[i].word));
            assert(no_bengali(fixed.skip(1)));
            assert(no_bengali(mid));
        }
        assert(no_bengali(core));
        lemma_bengali_of_none(core);
        lemma_bengali_of_none(mid);
        assert(head + core + tail =~= word);
        lemma_bengali_of_two(head, core);
        lemma_bengali_of_two(head + core, tail);
        lemma_bengali_of_two(head, mid);
        lemma_bengali_of_two(head + mid, tail);
    }
}

/// No Bengali character of a line is changed, moved, lost or added: those of the corrected line are
/// those of the line, in the same order. The dictionary is one of English words.
pub proof fn law_bengali_stays_in_order(dict: Seq<Lexeme>, line: Seq<char>)
    requires
        forall|i: int| 0 <= i < dict.len() ==> english_word(#[trigger] dict[i].word),
    ensures
        bengali_of(corrected_line(dict, line)) == bengali_of(line),
{
    let words = text::words(line);
    let pieces = corrected_pieces(dict, line);
    assert forall|i: int| 0 <= i < pieces.len() implies bengali_of(#[trigger] pieces[i])
        == bengali_of(words[i]) by {
        lemma_bengali_of_word(dict, words[i]);
    }
    lemma_bengali_of_join(pieces);
    lemma_bengali_of_packed(pieces, words);
    text::law_words_lose_only_whitespace(line);
    lemma_bengali_of_dense(line);
}

/// `here` is the figure of a token: that of its entry, or 0 where the dictionary has none.
pub open spec fn figure_is(dict: Seq<Lexeme>, token: Seq<char>, here: int) -> bool {
    ||| exists|k: int|
        0 <= k < dict.len() && (#[trigger] dict[k]).word == token && dict[k].zipf == here
    ||| here == 0 && forall|k: int| 0 <= k < dict.len() ==> (#[trigger] dict[k]).word != token
}

/// A token's figure is that of its entry, and 0 where the dictionary has none.
pub proof fn law_figure_is_the_entrys(dict: Seq<Lexeme>, token: Seq<char>, here: int)
    requires
        dictionary::sorted(dict),
        figure_is(dict, token, here),
    ensures
        dictionary::zipf_of(dict, token) == here,
{
    if exists|k: int|
        0 <= k < dict.len() && (#[trigger] dict[k]).word == token && dict[k].zipf == here {
        let k = choose|k: int|
            0 <= k < dict.len() && (#[trigger] dict[k]).word == token && dict[k].zipf == here;
        dictionary::law_zipf_of_entry(dict, k);
    } else {
        assert forall|k: int| !dictionary::holds(dict, token, k) by {
            if 0 <= k < dict.len() {
                assert(dict[k].word != token);
            }
        }
    }
}

/// Every misspelling that can be corrected is: a token of four letters or more with an ASCII letter
/// in it and no Bengali, whose figure is below two and a half, becomes the nearest other word of the
/// dictionary, the more common and then the earlier one of two as near, where that is one edit away,
/// or two for six letters or more, and is more common by the margin.
pub proof fn law_every_correctable_token_is_corrected(
    dict: Seq<Lexeme>,
    token: Seq<char>,
    here: int,
    i: int,
)
    requires
        dictionary::sorted(dict),
        figure_is(dict, token, here),
        exists|k: int|
            0 <= k < token.len() && ('a' <= #[trigger] token[k] <= 'z' || 'A' <= token[k] <= 'Z'),
        forall|k: int| 0 <= k < token.len() ==> !(0x0980 <= #[trigger] token[k] as u32 <= 0x09ff),
        here < 2748779069440,
        0 <= i < dict.len(),
        dict[i].word != token,
        4 <= token.len() <= 5 ==> distance::edit_distance(token, dict[i].word) <= 1,
        token.len() >= 6 ==> distance::edit_distance(token, dict[i].word) <= 2,
        token.len() >= 4,
        forall|j: int|
            0 <= j < dict.len() && (#[trigger] dict[j]).word != token ==> {
                let near = distance::edit_distance(token, dict[i].word);
                let far = distance::edit_distance(token, dict[j].word);
                ||| near < far
                ||| near == far && dict[i].zipf > dict[j].zipf
                ||| near == far && dict[i].zipf == dict[j].zipf && i <= j
            },
        dict[i].zipf - here >= 1099511595008,
    ensures
        corrected(dict, token) == dict[i].word,
{
    law_figure_is_the_entrys(dict, token, here);
    let k = choose|k: int|
        0 <= k < token.len() && ('a' <= #[trigger] token[k] <= 'z' || 'A' <= token[k] <= 'Z');
    assert(ascii_letter(token[k]));
    assert(latin(token));
    assert(candidate(dict, token, i));
    assert forall|j: int| #[trigger] candidate(dict, token, j) && j != i implies better(
        dict,
        token,
        i,
        j,
    ) by {
        assert(dict[j].word != token);
    }
    assert(is_best(dict, token, i));
    law_best_is_unique(dict, token, i, choose|b: int| is_best(dict, token, b));
}

/// Nothing else is corrected: a token that changes is one that can be corrected, and it becomes the
/// word that the dictionary supports best.
pub proof fn law_nothing_else_is_corrected(dict: Seq<Lexeme>, token: Seq<char>, here: int)
    requires
        dictionary::sorted(dict),
        figure_is(dict, token, here),
        corrected(dict, token) != token,
    ensures
        exists|k: int|
            0 <= k < token.len() && ('a' <= #[trigger] token[k] <= 'z' || 'A' <= token[k] <= 'Z'),
        forall|k: int| 0 <= k < token.len() ==> !(0x0980 <= #[trigger] token[k] as u32 <= 0x09ff),
        here < 2748779069440,
        token.len() >= 4,
        exists|i: int|
            {
                &&& 0 <= i < dict.len()
                &&& (#[trigger] dict[i]).word == corrected(dict, token)
                &&& distance::edit_distance(token, dict[i].word) <= if token.len() <= 5 {
                    1int
                } else {
                    2
                }
                &&& dict[i].zipf - here >= 1099511595008
                &&& forall|j: int|
                    #![trigger dict[j]]
                    0 <= j < dict.len() && dict[j].word != token ==> {
                        let near = distance::edit_distance(token, dict[i].word);
                        let far = distance::edit_distance(token, dict[j].word);
                        ||| near < far
                        ||| near == far && dict[i].zipf > dict[j].zipf
                        ||| near == far && dict[i].zipf == dict[j].zipf && i <= j
                    }
            },
{
    law_figure_is_the_entrys(dict, token, here);
    if token.len() <= 3 {
        law_short_is_kept(dict, token);
    }
    let k = choose|k: int| 0 <= k < token.len() && ascii_letter(#[trigger] token[k]);
    assert('a' <= token[k] <= 'z' || 'A' <= token[k] <= 'Z');
    assert forall|k: int| 0 <= k < token.len() implies !(0x0980 <= #[trigger] token[k] as u32
        <= 0x09ff) by {
        assert(!bengali(token[k]));
    }
    law_correction_is_supported(dict, token);
    let i = choose|i: int|
        {
            &&& #[trigger] is_best(dict, token, i)
            &&& corrected(dict, token) == dict[i].word
            &&& dict[i].zipf >= dictionary::zipf_of(dict, token) + MARGIN
        };
    assert(dict[i].word == corrected(dict, token));
    assert forall|j: int|
        #![trigger dict[j]]
        0 <= j < dict.len() && dict[j].word != token implies {
        let near = distance::edit_distance(token, dict[i].word);
        let far = distance::edit_distance(token, dict[j].word);
        ||| near < far
        ||| near == far && dict[i].zipf > dict[j].zipf
        ||| near == far && dict[i].zipf == dict[j].zipf && i <= j
    } by {
        if j != i && distance::edit_distance(token, dict[j].word) <= budget(token.len()) {
            assert(candidate(dict, token, j));
        }
    }
}

/// Where the core of a word is, told by what stands around it.
proof fn lemma_core_is(head: Seq<char>, core: Seq<char>, tail: Seq<char>)
    requires
        forall|i: int| 0 <= i < head.len() ==> !unicode::alphanumeric(#[trigger] head[i]),
        forall|i: int| 0 <= i < tail.len() ==> !unicode::alphanumeric(#[trigger] tail[i]),
        core.len() > 0,
        unicode::alphanumeric(core[0]),
        unicode::alphanumeric(core.last()),
    ensures
        core_start(head + core + tail) == head.len(),
        core_end(head + core + tail) == head.len() + core.len(),
        core_of(head + core + tail) == core,
        (head + core + tail).take(core_start(head + core + tail)) == head,
        (head + core + tail).skip(core_end(head + core + tail)) == tail,
{
    let word = head + core + tail;
    let flags = classes(word);
    let end = (head.len() + core.len()) as int;
    assert forall|i: int| 0 <= i < head.len() implies !(#[trigger] flags[i]) by {
        assert(word[i] == head[i]);
    }
    assert(word[head.len() as int] == core[0]);
    lemma_head_len_is(flags, head.len() as int);
    assert forall|i: int| end <= i < flags.len() implies !(#[trigger] flags[i]) by {
        assert(word[i] == tail[i - end]);
    }
    assert(word[end - 1] == core.last());
    lemma_tail_len_is(flags, end);
    assert(word.subrange(head.len() as int, end) =~= core);
    assert(word.take(head.len() as int) =~= head);
    assert(word.skip(end) =~= tail);
}

/// A word is corrected at its core, in whatever punctuation it stands, and keeps its shape: all
/// capitals, a capital in front, or neither. The core begins and ends with a letter or a digit; what
/// stands around it has none.
pub proof fn law_word_is_corrected_at_its_core(
    dict: Seq<Lexeme>,
    head: Seq<char>,
    core: Seq<char>,
    tail: Seq<char>,
)
    requires
        forall|i: int| 0 <= i < head.len() ==> !unicode::alphanumeric(#[trigger] head[i]),
        forall|i: int| 0 <= i < tail.len() ==> !unicode::alphanumeric(#[trigger] tail[i]),
        core.len() > 0,
        unicode::alphanumeric(core[0]),
        unicode::alphanumeric(core.last()),
        exists|k: int|
            0 <= k < core.len() && ('a' <= #[trigger] core[k] <= 'z' || 'A' <= core[k] <= 'Z'),
        forall|k: int| 0 <= k < core.len() ==> !(0x0980 <= #[trigger] core[k] as u32 <= 0x09ff),
        corrected(dict, unicode::lower_text(core)) != unicode::lower_text(core),
    ensures
        ({
            let fixed = corrected(dict, unicode::lower_text(core));
            let out = corrected_word(dict, head + core + tail);
            let capitals = core.len() > 1 && forall|i: int|
                1 <= i < core.len() ==> unicode::uppercase(#[trigger] core[i]);
            &&& !unicode::uppercase(core[0]) ==> out == head + fixed + tail
            &&& unicode::uppercase(core[0]) && capitals ==> out == head + unicode::upper_text(fixed)
                + tail
            &&& unicode::uppercase(core[0]) && !capitals && fixed.len() > 0 ==> out == head + (
            unicode::upper_char(fixed[0]) + fixed.skip(1)) + tail
        }),
{
    lemma_core_is(head, core, tail);
    let k = choose|k: int|
        0 <= k < core.len() && ('a' <= #[trigger] core[k] <= 'z' || 'A' <= core[k] <= 'Z');
    assert(ascii_letter(core[k]));
    assert(latin(core));
}

/// Every other word stays as it is: one without a letter or a digit, one whose core has no ASCII
/// letter or has a Bengali one, and one whose core needs no correction.
pub proof fn law_other_words_are_kept(
    dict: Seq<Lexeme>,
    head: Seq<char>,
    core: Seq<char>,
    tail: Seq<char>,
)
    requires
        forall|i: int| 0 <= i < head.len() ==> !unicode::alphanumeric(#[trigger] head[i]),
        forall|i: int| 0 <= i < tail.len() ==> !unicode::alphanumeric(#[trigger] tail[i]),
        core.len() > 0 ==> unicode::alphanumeric(core[0]) && unicode::alphanumeric(core.last()),
        ({
            ||| core.len() == 0
            ||| forall|k: int|
                0 <= k < core.len() ==> !('a' <= #[trigger] core[k] <= 'z' || 'A' <= core[k]
                    <= 'Z')
            ||| exists|k: int|
                0 <= k < core.len() && 0x0980 <= #[trigger] core[k] as u32 <= 0x09ff
            ||| corrected(dict, unicode::lower_text(core)) == unicode::lower_text(core)
        }),
    ensures
        corrected_word(dict, head + core + tail) == head + core + tail,
{
    let word = head + core + tail;
    if core.len() > 0 {
        lemma_core_is(head, core, tail);
        if exists|k: int| 0 <= k < core.len() && 0x0980 <= #[trigger] core[k] as u32 <= 0x09ff {
            let k = choose|k: int|
                0 <= k < core.len() && 0x0980 <= #[trigger] core[k] as u32 <= 0x09ff;
            assert(bengali(core[k]));
        }
        if forall|k: int|
            0 <= k < core.len() ==> !('a' <= #[trigger] core[k] <= 'z' || 'A' <= core[k] <= 'Z') {
            assert forall|k: int| 0 <= k < core.len() implies !ascii_letter(#[trigger] core[k]) by {}
        }
        if corrected(dict, unicode::lower_text(core)) == unicode::lower_text(core) {
            law_unchanged_core_keeps_the_word(dict, word);
        }
    } else {
        let flags = classes(word);
        assert forall|i: int| 0 <= i < flags.len() implies !(#[trigger] flags[i]) by {
            if i < head.len() {
                assert(word[i] == head[i]);
            } else {
                assert(word[i] == tail[i - head.len()]);
            }
        }
        lemma_head_len_is(flags, flags.len() as int);
        assert(core_of(word).len() == 0);
        assert(!latin(core_of(word)));
    }
}

/// A line is its words, each corrected by itself, however many there are, one space apart.
pub proof fn law_line_is_its_corrected_words(dict: Seq<Lexeme>, line: Seq<char>)
    ensures
        corrected_line(dict, line) == text::join(
            text::words(line).map_values(|word: Seq<char>| corrected_word(dict, word)),
        ),
        corrected_tokens(dict, line) == text::join(
            text::words(line).map_values(|token: Seq<char>| corrected(dict, token)),
        ),
{
    assert(corrected_pieces(dict, line) =~= text::words(line).map_values(
        |word: Seq<char>| corrected_word(dict, word),
    ));
    let tokens = Seq::new(
        text::words(line).len(),
        |i: int| corrected(dict, text::words(line)[i]),
    );
    assert(tokens =~= text::words(line).map_values(|token: Seq<char>| corrected(dict, token)));
}

/// A word takes the shape of the one it stands for: all capitals where that has a capital in front
/// and, from the second letter on, nothing else; a capital in front where that has one; and else it
/// is as the dictionary has it.
pub proof fn law_shape_is_kept(original: Seq<char>, fixed: Seq<char>)
    ensures
        original.len() == 0 || !unicode::uppercase(original[0]) ==> recased(original, fixed)
            == fixed,
        original.len() > 1 && (forall|i: int|
            0 <= i < original.len() ==> unicode::uppercase(#[trigger] original[i])) ==> recased(
            original,
            fixed,
        ) == unicode::upper_text(fixed),
        original.len() > 0 && unicode::uppercase(original[0]) && fixed.len() > 0 && (original.len()
            == 1 || exists|i: int|
            0 <= i < original.len() && !unicode::uppercase(#[trigger] original[i])) ==> recased(
            original,
            fixed,
        ) == unicode::upper_char(fixed[0]) + fixed.skip(1),
{
    if exists|i: int| 0 <= i < original.len() && !unicode::uppercase(#[trigger] original[i]) {
        let i = choose|i: int|
            0 <= i < original.len() && !unicode::uppercase(#[trigger] original[i]);
        if i >= 1 {
            assert(!rest_upper(original));
        }
    }
}

/// A core stays as it is where its lowercase form does, and else becomes the correction of that, in
/// its own shape.
pub proof fn law_core_keeps_its_shape(dict: Seq<Lexeme>, core: Seq<char>, lower: Seq<char>)
    ensures
        corrected(dict, lower) == lower ==> corrected_core(dict, core, lower) == core,
        corrected(dict, lower) != lower ==> corrected_core(dict, core, lower) == recased(
            core,
            corrected(dict, lower),
        ),
{
}

/// The three shapes that a word can be given.
pub proof fn law_three_shapes(fixed: Seq<char>, whole: Seq<char>, front: Seq<char>)
    ensures
        reshaped(true, true, fixed, whole, front) == whole,
        fixed.len() > 0 ==> reshaped(true, false, fixed, whole, front) == front + fixed.skip(1),
        fixed.len() == 0 ==> reshaped(true, false, fixed, whole, front) == fixed,
        reshaped(false, true, fixed, whole, front) == fixed,
        reshaped(false, false, fixed, whole, front) == fixed,
{
}

/// The core lies from the first letter or digit to the last.
pub proof fn law_core_is_from_first_to_last(flags: Seq<bool>, first: int, last: int)
    requires
        0 <= first <= last < flags.len(),
        flags[first],
        flags[last],
        forall|i: int| 0 <= i < first ==> !(#[trigger] flags[i]),
        forall|i: int| last < i < flags.len() ==> !(#[trigger] flags[i]),
    ensures
        head_len(flags) == first,
        flags.len() - tail_len(flags) == last + 1,
{
    lemma_head_len_is(flags, first);
    lemma_tail_len_is(flags, last + 1);
}

/// How far a token may be moved: not at all up to three letters, by one edit up to five, and by two
/// from six on, however long it is.
pub proof fn law_budget_by_length(n: nat)
    ensures
        n < 4 ==> budget(n) == 0,
        n == 4 || n == 5 ==> budget(n) == 1,
        n >= 6 ==> budget(n) == 2,
{
}

/// A token may be corrected exactly where it has an ASCII letter and no Bengali character.
pub proof fn law_what_may_be_corrected(token: Seq<char>)
    ensures
        latin(token) <==> {
            &&& exists|k: int|
                0 <= k < token.len() && ('a' <= #[trigger] token[k] <= 'z' || 'A' <= token[k]
                    <= 'Z')
            &&& forall|k: int|
                0 <= k < token.len() ==> !(0x0980 <= #[trigger] token[k] as u32 <= 0x09ff)
        },
{
    if latin(token) {
        let k = choose|k: int| 0 <= k < token.len() && ascii_letter(#[trigger] token[k]);
        assert('a' <= token[k] <= 'z' || 'A' <= token[k] <= 'Z');
        assert forall|k: int| 0 <= k < token.len() implies !(0x0980 <= #[trigger] token[k] as u32
            <= 0x09ff) by {
            assert(!bengali(token[k]));
        }
    }
    if exists|k: int|
        0 <= k < token.len() && ('a' <= #[trigger] token[k] <= 'z' || 'A' <= token[k] <= 'Z') {
        let k = choose|k: int|
            0 <= k < token.len() && ('a' <= #[trigger] token[k] <= 'z' || 'A' <= token[k] <= 'Z');
        assert(ascii_letter(token[k]));
    }
}

} // verus!
