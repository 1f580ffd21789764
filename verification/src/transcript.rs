//! From decoded windows to a transcript: repetition loops, fused words, and how the pieces of one
//! utterance come together.

use crate::chunks;
use crate::correct;
use crate::correct::Corrector;
use crate::number;
use crate::segment;
use crate::segment::N_SAMPLES;
use crate::text;
use vstd::prelude::*;

verus! {

/// Copies of a phrase in a row that count as a loop. Two and three are ordinary reduplication.
pub const MIN_RUN: usize = 4;

/// The longest phrase, in words, that is looked for.
pub const MAX_PHRASE: usize = 4;

/// A run of Latin letters longer than this is not a word.
pub const FUSION_LIMIT: usize = 20;

/// How often the first `n` elements stand in a row at the front.
pub open spec fn repeats<T>(t: Seq<T>, n: nat) -> nat
    recommends
        0 < n <= t.len(),
    decreases t.len(),
{
    if 0 < n && 2 * n <= t.len() && t.take(n as int) == t.subrange(n as int, 2 * n as int) {
        1 + repeats(t.skip(n as int), n)
    } else {
        1
    }
}

/// The first `n` elements are the phrase of a loop.
pub open spec fn loops<T>(t: Seq<T>, n: nat) -> bool {
    0 < n <= t.len() && repeats(t, n) >= MIN_RUN
}

/// The length of the shortest phrase that loops at the front, 0 where none does.
pub open spec fn loop_unit<T>(t: Seq<T>) -> nat {
    if loops(t, 1) {
        1
    } else if loops(t, 2) {
        2
    } else if loops(t, 3) {
        3
    } else if loops(t, 4) {
        4
    } else {
        0
    }
}

/// Every loop replaced by one copy of its phrase, from the front.
pub open spec fn collapsed<T>(t: Seq<T>) -> Seq<T>
    decreases t.len(),
{
    if t.len() == 0 {
        seq![]
    } else {
        let n = loop_unit(t);
        if n == 0 {
            seq![t[0]] + collapsed(t.skip(1))
        } else {
            proof {
                lemma_repeats(t, n);
            }
            t.take(n as int) + collapsed(t.skip((n * repeats(t, n)) as int))
        }
    }
}

/// No phrase loops at any position.
pub open spec fn loop_free<T>(t: Seq<T>) -> bool {
    forall|i: int| 0 <= i < t.len() ==> loop_unit(#[trigger] t.skip(i)) == 0
}

/// A text with its loops collapsed, its words joined by single spaces.
pub open spec fn collapsed_text(s: Seq<char>) -> Seq<char> {
    text::join(collapsed(text::words(s)))
}

pub open spec fn latin_run(w: Seq<char>) -> bool {
    forall|i: int| 0 <= i < w.len() ==> correct::ascii_letter(#[trigger] w[i])
}

/// The longest word made of Latin letters alone, the last one where several are longest; empty
/// where there is none.
pub open spec fn longest_run(ws: Seq<Seq<char>>) -> Seq<char>
    decreases ws.len(),
{
    if ws.len() == 0 {
        seq![]
    } else {
        let rest = longest_run(ws.drop_last());
        if latin_run(ws.last()) && ws.last().len() >= rest.len() {
            ws.last()
        } else {
            rest
        }
    }
}

/// The warning about a word.
pub open spec fn fusion_message(w: Seq<char>) -> Seq<char> {
    "suspiciously long Latin run ("@ + number::decimal(w.len()) + " chars): \""@ + w + "\""@
}

/// The kept decodes, each with its loops collapsed.
pub open spec fn kept_pieces(decodes: Seq<Option<String>>) -> Seq<Seq<char>>
    decreases decodes.len(),
{
    if decodes.len() == 0 {
        seq![]
    } else {
        let rest = kept_pieces(decodes.drop_last());
        match decodes.last() {
            Some(d) => rest.push(collapsed_text(d@)),
            None => rest,
        }
    }
}

pub proof fn lemma_repeats<T>(t: Seq<T>, n: nat)
    requires
        0 < n <= t.len(),
    ensures
        1 <= repeats(t, n),
        n <= n * repeats(t, n) <= t.len(),
    decreases t.len(),
{
    if 2 * n <= t.len() && t.take(n as int) == t.subrange(n as int, 2 * n as int) {
        lemma_repeats(t.skip(n as int), n);
        let r = repeats(t.skip(n as int), n);
        assert(n * (1 + r) == n + n * r) by (nonlinear_arith);
    } else {
        assert(n * 1 == n) by (nonlinear_arith);
    }
}

/// `k` copies of a phrase in front that the next `n` elements do not continue.
proof fn lemma_repeats_are<T>(t: Seq<T>, n: nat, k: nat)
    requires
        0 < n,
        1 <= k,
        n * k <= t.len(),
        forall|j: int| 1 <= j < k ==> t.take(n as int) == #[trigger] t.subrange(n * j, n * j + n),
        n * k + n > t.len() || t.take(n as int) != t.subrange(
            (n * k) as int,
            (n * k + n) as int,
        ),
    ensures
        repeats(t, n) == k,
    decreases k,
{
    assert(n * 1 == n) by (nonlinear_arith);
    assert(n * k >= n) by (nonlinear_arith)
        requires
            k >= 1,
    ;
    if k > 1 {
        let rest = t.skip(n as int);
        assert(n * k >= 2 * n) by (nonlinear_arith)
            requires
                k >= 2,
        ;
        assert(t.subrange(n * 1int, n * 1int + n) == t.take(n as int));
        assert(t.take(n as int) == t.subrange(n as int, 2 * n as int));
        assert(rest.take(n as int) =~= t.subrange(n as int, 2 * n as int));
        assert(n * (k - 1) == n * k - n) by (nonlinear_arith);
        assert forall|j: int| 1 <= j < k - 1 implies rest.take(n as int) == #[trigger] rest.subrange(
            n * j,
            n * j + n,
        ) by {
            assert(n * (j + 1) == n * j + n) by (nonlinear_arith);
            assert(n * j + 2 * n <= n * k) by (nonlinear_arith)
                requires
                    j + 2 <= k,
            ;
            assert(n * j >= 0) by (nonlinear_arith)
                requires
                    j >= 1,
            ;
            assert(t.subrange(n * (j + 1), n * (j + 1) + n) == t.take(n as int));
            assert(rest.subrange(n * j, n * j + n) =~= t.subrange(
                n * (j + 1),
                n * (j + 1) + n,
            ));
        }
        if n * k + n <= t.len() {
            assert(rest.subrange(n * (k - 1), n * (k - 1) + n) =~= t.subrange(
                (n * k) as int,
                (n * k + n) as int,
            ));
        }
        lemma_repeats_are(rest, n, (k - 1) as nat);
    }
}

/// How often the phrase of `n` words at `i` stands in a row there.
fn count_repeats(toks: &Vec<Vec<char>>, i: usize, n: usize) -> (r: usize)
    requires
        0 < n,
        i + n <= toks@.len(),
    ensures
        r == repeats(text::views(toks@).skip(i as int), n as nat),
{
    let ghost t = text::views(toks@).skip(i as int);
    let total: usize = toks.len();
    let mut reps: usize = 1;
    let mut end: usize = i + n;
    assert(n * 1 == n) by (nonlinear_arith);
    while total - end >= n
        invariant_except_break
            total == toks@.len(),
            0 < n,
            i + n <= end <= toks@.len(),
            end - i == n * reps,
            1 <= reps,
            t == text::views(toks@).skip(i as int),
            forall|j: int|
                1 <= j < reps ==> t.take(n as int) == #[trigger] t.subrange(n * j, n * j + n),
        ensures
            1 <= reps,
            n * reps <= t.len(),
            forall|j: int|
                1 <= j < reps ==> t.take(n as int) == #[trigger] t.subrange(n * j, n * j + n),
            n * reps + n > t.len() || t.take(n as int) != t.subrange(
                (n * reps) as int,
                (n * reps + n) as int,
            ),
        decreases toks@.len() - end,
    {
        let mut same: bool = true;
        let mut k: usize = 0;
        while same && k < n
            invariant
                k <= n,
                total == toks@.len(),
                i + n <= end,
                end + n <= toks@.len(),
                t == text::views(toks@).skip(i as int),
                end - i == n * reps,
                same ==> forall|m: int|
                    0 <= m < k ==> #[trigger] t.take(n as int)[m] == t.subrange(
                        n * reps as int,
                        n * reps + n,
                    )[m],
                !same ==> t.take(n as int) != t.subrange(n * reps as int, n * reps + n),
            decreases n - k + (if same {
                1int
            } else {
                0int
            }),
        {
            if text::same_chars(toks[i + k].as_slice(), toks[end + k].as_slice()) {
                assert(t[k as int] == toks@[i + k]@);
                assert(t[n * reps + k] == toks@[end + k]@);
                k = k + 1;
            } else {
                proof {
                    assert(t.take(n as int)[k as int] == toks@[i + k]@);
                    assert(t.subrange(n * reps as int, n * reps + n)[k as int] == toks@[end
                        + k]@);
                }
                same = false;
            }
        }
        if !same {
            break;
        }
        proof {
            assert(t.take(n as int) =~= t.subrange(n * reps as int, n * reps + n));
            assert(n * (reps + 1) == n * reps + n) by (nonlinear_arith);
            assert(reps <= n * reps) by (nonlinear_arith)
                requires
                    n >= 1,
            ;
        }
        reps = reps + 1;
        end = end + n;
    }
    proof {
        lemma_repeats_are(t, n as nat, reps as nat);
    }
    reps
}

/// A text with every repetition loop collapsed to one copy of its phrase.
///
/// A phrase of one to four words that stands four times or more in a row is a loop; the shortest
/// phrase that loops is taken. Words are joined by single spaces.
pub fn collapse_loops(line: &str) -> (r: String)
    ensures
        r@ == collapsed_text(line@),
{
    let toks = text::split_words(line);
    let ghost all = text::views(toks@);
    let mut out: Vec<Vec<char>> = Vec::new();
    let mut i: usize = 0;
    assert(all.skip(0) =~= all);
    assert(text::views(out@) + collapsed(all) =~= collapsed(all));
    while i < toks.len()
        invariant
            i <= toks@.len(),
            all == text::views(toks@),
            text::views(out@) + collapsed(all.skip(i as int)) == collapsed(all),
        decreases toks@.len() - i,
    {
        let ghost rest = all.skip(i as int);
        let ghost done = text::views(out@);
        let mut unit: usize = 0;
        let mut reps: usize = 1;
        let mut n: usize = 1;
        while unit == 0 && n <= MAX_PHRASE && n <= toks.len() - i
            invariant
                1 <= n <= MAX_PHRASE + 1,
                i < toks@.len(),
                all == text::views(toks@),
                rest == all.skip(i as int),
                unit == 0 ==> forall|k: nat| 1 <= k < n ==> !#[trigger] loops(rest, k),
                unit != 0 ==> loop_unit(rest) == unit && reps == repeats(rest, unit as nat)
                    && unit <= rest.len(),
            decreases MAX_PHRASE + 1 - n + (if unit == 0 {
                1int
            } else {
                0int
            }),
        {
            let count: usize = count_repeats(&toks, i, n);
            if count >= MIN_RUN {
                proof {
                    assert(loops(rest, n as nat));
                    assert(n > 1 ==> !loops(rest, 1));
                    assert(n > 2 ==> !loops(rest, 2));
                    assert(n > 3 ==> !loops(rest, 3));
                }
                unit = n;
                reps = count;
            } else {
                assert(!loops(rest, n as nat));
                n = n + 1;
            }
        }
        if unit == 0 {
            proof {
                assert(!loops(rest, 1) && !loops(rest, 2) && !loops(rest, 3) && !loops(rest, 4));
                assert(rest[0] == toks@[i as int]@);
                assert(rest.skip(1) =~= all.skip(i + 1));
            }
            let word = text::slice_of(toks[i].as_slice(), 0, toks[i].len());
            proof {
                assert(word@ =~= toks@[i as int]@);
                assert(text::views(out@.push(word)) =~= done.push(word@));
                assert(done.push(word@) + collapsed(all.skip(i + 1)) =~= done + (seq![word@]
                    + collapsed(all.skip(i + 1))));
            }
            out.push(word);
            i = i + 1;
        } else {
            proof {
                lemma_repeats(rest, unit as nat);
                assert(unit * reps == (unit as nat) * repeats(rest, unit as nat));
                assert(rest.skip(unit * reps) =~= all.skip(i + unit * reps));
            }
            let total: usize = toks.len();
            let mut k: usize = 0;
            while k < unit
                invariant
                    k <= unit,
                    total == toks@.len(),
                    i + unit <= total,
                    all == text::views(toks@),
                    text::views(out@) == done + all.subrange(i as int, i + k),
                decreases unit - k,
            {
                let word = text::slice_of(toks[i + k].as_slice(), 0, toks[i + k].len());
                proof {
                    assert(word@ =~= all[i + k]);
                    assert(text::views(out@.push(word)) =~= text::views(out@).push(word@));
                    assert(all.subrange(i as int, i + k).push(all[i + k]) =~= all.subrange(
                        i as int,
                        i + k + 1,
                    ));
                }
                out.push(word);
                k = k + 1;
            }
            proof {
                assert(rest.take(unit as int) =~= all.subrange(i as int, i + unit));
                assert((done + rest.take(unit as int)) + collapsed(all.skip(i + unit * reps))
                    =~= done + (rest.take(unit as int) + collapsed(all.skip(i + unit * reps))));
            }
            i = i + unit * reps;
        }
    }
    proof {
        assert(collapsed(all.skip(i as int)).len() == 0);
        assert(text::views(out@) + collapsed(all.skip(i as int)) =~= text::views(out@));
    }
    text::join_words(&out)
}

/// A warning where the text holds a word of Latin letters too long to be one: what a decode looks
/// like when words were fused.
pub fn suspicious_fusion(line: &str) -> (r: Option<String>)
    ensures
        r.is_some() == (longest_run(text::words(line@)).len() > FUSION_LIMIT),
        r.is_some() ==> r.unwrap()@ == fusion_message(longest_run(text::words(line@))),
{
    let ws = text::split_words(line);
    let ghost all = text::views(ws@);
    let mut worst: Vec<char> = Vec::new();
    assert(longest_run(all.take(0)) =~= seq![]);
    for i in 0..ws.len()
        invariant
            all == text::views(ws@),
            worst@ == longest_run(all.take(i as int)),
    {
        let word: &Vec<char> = &ws[i];
        proof {
            assert(all.take(i + 1).drop_last() =~= all.take(i as int));
            assert(all.take(i + 1).last() == word@);
        }
        if word.len() >= worst.len() {
            let mut letters: bool = true;
            let mut k: usize = 0;
            while letters && k < word.len()
                invariant
                    k <= word@.len(),
                    letters ==> forall|m: int|
                        0 <= m < k ==> correct::ascii_letter(#[trigger] word@[m]),
                    !letters ==> !latin_run(word@),
                decreases word@.len() - k + (if letters {
                    1int
                } else {
                    0int
                }),
            {
                let c: char = word[k];
                if ('a' <= c && c <= 'z') || ('A' <= c && c <= 'Z') {
                    k = k + 1;
                } else {
                    assert(!correct::ascii_letter(word@[k as int]));
                    letters = false;
                }
            }
            if letters {
                worst = text::slice_of(word.as_slice(), 0, word.len());
                assert(worst@ =~= word@);
            }
        }
    }
    assert(all.take(all.len() as int) =~= all);
    if worst.len() > FUSION_LIMIT {
        let mut out = "suspiciously long Latin run (".to_owned();
        let count = number::to_decimal(worst.len() as u64);
        out.append(count.as_str());
        out.append(" chars): \"");
        text::push_chars(&mut out, worst.as_slice());
        out.append("\"");
        assert(out@ =~= fusion_message(worst@));
        Some(out)
    } else {
        None
    }
}

/// The transcript of one utterance: the decodes of its windows that were kept, each with its loops
/// collapsed, joined by single spaces. `None` stands for a window discarded as noise.
pub fn assemble(decodes: &Vec<Option<String>>) -> (r: String)
    ensures
        r@ == text::join(kept_pieces(decodes@)),
{
    let mut pieces: Vec<String> = Vec::new();
    assert(text::texts(pieces@) =~= kept_pieces(decodes@.take(0)));
    for i in 0..decodes.len()
        invariant
            text::texts(pieces@) == kept_pieces(decodes@.take(i as int)),
    {
        proof {
            assert(decodes@.take(i + 1).drop_last() =~= decodes@.take(i as int));
            assert(decodes@.take(i + 1).last() == decodes@[i as int]);
        }
        match &decodes[i] {
            Some(d) => {
                let piece = collapse_loops(d.as_str());
                assert(text::texts(pieces@.push(piece)) =~= text::texts(pieces@).push(piece@));
                pieces.push(piece);
            },
            None => {},
        }
    }
    assert(decodes@.take(decodes@.len() as int) =~= decodes@);
    text::join_texts(&pieces)
}

/// The windows that an utterance of `len` samples is decoded in, from the first sample of each to
/// the one after its last.
pub fn windows(len: usize) -> (r: Vec<(usize, usize)>)
    ensures
        r@.len() == chunks::pieces(0, len as nat, N_SAMPLES as nat).len(),
        forall|k: int|
            0 <= k < r@.len() ==> {
                &&& (#[trigger] r@[k]).0 == chunks::pieces(0, len as nat, N_SAMPLES as nat)[k].0
                &&& r@[k].1 == chunks::pieces(0, len as nat, N_SAMPLES as nat)[k].1
                &&& r@[k].0 < r@[k].1 <= len
            },
{
    chunks::cut(len, N_SAMPLES)
}

/// Every utterance of the segmenter fits into one window, so that nothing said is cut in two.
pub proof fn law_utterance_is_one_window<T>(frames: Seq<segment::Frame<T>>, k: int)
    requires
        segment::whole_frames(frames),
        0 <= k < segment::fed(segment::idle(), frames).1.len(),
    ensures
        ({
            let len = segment::fed(segment::idle(), frames).1[k].len();
            chunks::pieces(0, len, N_SAMPLES as nat) == seq![(0int, len as int)]
        }),
{
    segment::law_utterances_are_stretches_of_the_stream(frames);
    let u = segment::fed(segment::idle(), frames).1[k];
    assert(segment::is_utterance(frames, segment::spans(frames)[k], u));
    assert(u.len() > 0) by {
        segment::law_utterance_is_not_empty(frames, segment::spans(frames)[k], u);
    }
    assert(chunks::pieces(N_SAMPLES as nat, u.len(), N_SAMPLES as nat).len() == 0);
    assert(chunks::pieces(0, u.len(), N_SAMPLES as nat) =~= seq![(0int, u.len() as int)]);
}

/// What the model is told before the audio: a transcription, in Bengali, without timestamps.
pub open spec fn prompt_tokens() -> Seq<Seq<char>> {
    seq![
        "<|startoftranscript|>"@,
        "<|bn|>"@,
        "<|transcribe|>"@,
        "<|notimestamps|>"@,
    ]
}

/// What the model is told before the audio.
pub fn decode_prompt() -> (r: Vec<String>)
    ensures
        text::texts(r@) == prompt_tokens(),
{
    let mut out: Vec<String> = Vec::new();
    out.push("<|startoftranscript|>".to_owned());
    out.push("<|bn|>".to_owned());
    out.push("<|transcribe|>".to_owned());
    out.push("<|notimestamps|>".to_owned());
    assert(text::texts(out@) =~= prompt_tokens());
    out
}

/// One decoded utterance on its way to the user.
pub struct Said {
    /// The transcript as it was decoded, without whitespace at its ends.
    pub heard: String,
    /// A warning about the transcript, where it looks like a broken decode.
    pub warning: Option<String>,
    /// The transcript with its English corrected.
    pub fixed: String,
}

impl Said {
    /// What `transcript` becomes with the given dictionary.
    pub open spec fn of(
        self,
        dict: Seq<crate::dictionary::Lexeme>,
        transcript: Seq<char>,
    ) -> bool {
        let heard = text::trim(transcript);
        let worst = longest_run(text::words(heard));
        &&& self.heard@ == heard
        &&& self.warning.is_some() == (worst.len() > FUSION_LIMIT)
        &&& self.warning.is_some() ==> self.warning.unwrap()@ == fusion_message(worst)
        &&& self.fixed@ == correct::corrected_line(dict, heard)
    }

    /// Whether anything was said at all.
    pub fn anything(&self) -> (r: bool)
        ensures
            r == (self.heard@.len() > 0),
    {
        text::chars_of(self.heard.as_str()).len() > 0
    }

    /// Whether the correction changed anything.
    pub fn changed(&self) -> (r: bool)
        ensures
            r == (self.fixed@ != self.heard@),
    {
        !text::same_text(self.fixed.as_str(), self.heard.as_str())
    }
}

/// Trims, inspects and corrects a transcript.
pub fn finish(corrector: &Corrector, transcript: &str) -> (r: Said)
    requires
        corrector.wf(),
    ensures
        r.of(corrector.dict(), transcript@),
{
    let heard = text::trimmed(transcript);
    let warning = suspicious_fusion(heard.as_str());
    let fixed = corrector.correct_text(heard.as_str());
    Said { heard, warning, fixed }
}

/// The loops of a text are collapsed word by word: cutting the result gives the collapsed words.
pub proof fn law_collapsed_words(s: Seq<char>)
    ensures
        text::words(collapsed_text(s)) == collapsed(text::words(s)),
{
    let ws = text::words(s);
    text::law_words_are_words(s);
    law_collapse_invents_nothing(ws);
    assert forall|i: int| 0 <= i < collapsed(ws).len() implies text::is_word(
        #[trigger] collapsed(ws)[i],
    ) by {
        assert(ws.contains(collapsed(ws)[i]));
    }
    text::law_words_of_join(collapsed(ws));
}

/// Every word of the result stood in the text.
pub proof fn law_collapse_invents_nothing<T>(t: Seq<T>)
    ensures
        forall|i: int| 0 <= i < collapsed(t).len() ==> t.contains(#[trigger] collapsed(t)[i]),
    decreases t.len(),
{
    if t.len() == 0 {
        assert(collapsed(t).len() == 0);
    } else {
        let n = loop_unit(t);
        let skip = if n == 0 {
            1
        } else {
            (n * repeats(t, n)) as int
        };
        if n != 0 {
            lemma_repeats(t, n);
        }
        let rest = t.skip(skip);
        law_collapse_invents_nothing(rest);
        let head = if n == 0 {
            seq![t[0]]
        } else {
            t.take(n as int)
        };
        assert(collapsed(t) == head + collapsed(rest));
        assert forall|i: int| 0 <= i < collapsed(t).len() implies t.contains(
            #[trigger] collapsed(t)[i],
        ) by {
            if i < head.len() {
                assert(t[i] == collapsed(t)[i]);
            } else {
                let x = collapsed(rest)[i - head.len()];
                assert(rest.contains(x));
                let k = choose|k: int| 0 <= k < rest.len() && rest[k] == x;
                assert(t[skip + k] == x);
            }
        }
    }
}

/// The word that a warning would name is the longest of Latin letters: no such word is longer, and
/// it is one of the words, or empty where there is none.
pub proof fn law_longest_run(ws: Seq<Seq<char>>)
    ensures
        forall|i: int|
            0 <= i < ws.len() && latin_run(#[trigger] ws[i]) ==> ws[i].len() <= longest_run(
                ws,
            ).len(),
        longest_run(ws).len() > 0 ==> ws.contains(longest_run(ws)) && latin_run(longest_run(ws)),
    decreases ws.len(),
{
    if ws.len() > 0 {
        let rest = ws.drop_last();
        law_longest_run(rest);
        assert forall|i: int| 0 <= i < ws.len() && latin_run(#[trigger] ws[i]) implies ws[i].len()
            <= longest_run(ws).len() by {
            if i < ws.len() - 1 {
                assert(rest[i] == ws[i]);
            }
        }
        if longest_run(ws).len() > 0 {
            if longest_run(ws) == ws.last() && latin_run(ws.last()) {
                assert(ws[ws.len() - 1] == longest_run(ws));
            } else {
                let k = choose|k: int| 0 <= k < rest.len() && rest[k] == longest_run(rest);
                assert(ws[k] == longest_run(ws));
            }
        }
    }
}

/// There is a warning exactly where some word of Latin letters alone is too long.
pub proof fn law_warned_exactly_of_long_runs(ws: Seq<Seq<char>>)
    ensures
        longest_run(ws).len() > FUSION_LIMIT <==> exists|i: int|
            0 <= i < ws.len() && latin_run(#[trigger] ws[i]) && ws[i].len() > FUSION_LIMIT,
{
    law_longest_run(ws);
    if longest_run(ws).len() > FUSION_LIMIT {
        let i = choose|i: int| 0 <= i < ws.len() && ws[i] == longest_run(ws);
        assert(latin_run(ws[i]) && ws[i].len() > FUSION_LIMIT);
    }
}

/// Collapsing never lengthens a text, never empties one, and keeps its first word.
pub proof fn law_collapse_shrinks<T>(t: Seq<T>)
    ensures
        collapsed(t).len() <= t.len(),
        t.len() > 0 ==> collapsed(t).len() > 0 && collapsed(t)[0] == t[0],
    decreases t.len(),
{
    if t.len() > 0 {
        let n = loop_unit(t);
        if n == 0 {
            law_collapse_shrinks(t.skip(1));
        } else {
            lemma_repeats(t, n);
            law_collapse_shrinks(t.skip((n * repeats(t, n)) as int));
        }
    }
}

/// The copies of a phrase hold no other words than the phrase, and end as it ends.
proof fn lemma_copies<T>(t: Seq<T>, n: nat)
    requires
        0 < n <= t.len(),
    ensures
        n <= n * repeats(t, n) <= t.len(),
        forall|i: int| 0 <= i < n * repeats(t, n) ==> t.take(n as int).contains(#[trigger] t[i]),
        t[n * repeats(t, n) - 1] == t[n - 1],
    decreases t.len(),
{
    lemma_repeats(t, n);
    let r = repeats(t, n);
    if 2 * n <= t.len() && t.take(n as int) == t.subrange(n as int, 2 * n as int) {
        let rest = t.skip(n as int);
        lemma_copies(rest, n);
        assert(rest.take(n as int) =~= t.subrange(n as int, 2 * n as int));
        assert(n * (1 + repeats(rest, n)) == n + n * repeats(rest, n)) by (nonlinear_arith);
        assert forall|i: int| 0 <= i < n * r implies t.take(n as int).contains(
            #[trigger] t[i],
        ) by {
            if i < n {
                assert(t.take(n as int)[i] == t[i]);
            } else {
                assert(t[i] == rest[i - n]);
            }
        }
        assert(t[n * r - 1] == rest[n * repeats(rest, n) - 1]);
        assert(rest[n - 1] == rest.take(n as int)[n - 1]);
        assert(t[n - 1] == t.take(n as int)[n - 1]);
    } else {
        assert(n * 1 == n) by (nonlinear_arith);
        assert forall|i: int| 0 <= i < n * r implies t.take(n as int).contains(
            #[trigger] t[i],
        ) by {
            assert(t.take(n as int)[i] == t[i]);
        }
    }
}

/// Collapsing loses no word altogether, and keeps the last one.
pub proof fn law_collapse_loses_no_word<T>(t: Seq<T>)
    ensures
        forall|i: int| 0 <= i < t.len() ==> collapsed(t).contains(#[trigger] t[i]),
        t.len() > 0 ==> collapsed(t).len() > 0 && collapsed(t).last() == t.last(),
    decreases t.len(),
{
    if t.len() > 0 {
        let n = loop_unit(t);
        let head = if n == 0 {
            seq![t[0]]
        } else {
            t.take(n as int)
        };
        let used = if n == 0 {
            1
        } else {
            (n * repeats(t, n)) as int
        };
        if n != 0 {
            lemma_copies(t, n);
        }
        let rest = t.skip(used);
        law_collapse_loses_no_word(rest);
        let all = collapsed(t);
        assert(all == head + collapsed(rest));
        assert forall|i: int| 0 <= i < t.len() implies all.contains(#[trigger] t[i]) by {
            if i < used {
                assert(head.contains(t[i])) by {
                    if n == 0 {
                        assert(head[0] == t[i]);
                    }
                }
                let k = choose|k: int| 0 <= k < head.len() && head[k] == t[i];
                assert(all[k] == t[i]);
            } else {
                assert(t[i] == rest[i - used]);
                let k = choose|k: int| 0 <= k < collapsed(rest).len() && collapsed(rest)[k] == t[i];
                assert(all[head.len() + k] == t[i]);
            }
        }
        if rest.len() == 0 {
            assert(collapsed(rest).len() == 0);
            assert(all =~= head);
        } else {
            assert(all.last() == collapsed(rest).last());
        }
    }
}

/// A text without a loop is left alone: reduplication survives.
pub proof fn law_loop_free_is_kept<T>(t: Seq<T>)
    requires
        loop_free(t),
    ensures
        collapsed(t) == t,
    decreases t.len(),
{
    if t.len() == 0 {
        assert(collapsed(t) =~= t);
    } else {
        let rest = t.skip(1);
        assert(t.skip(0) =~= t);
        assert(loop_unit(t.skip(0)) == 0);
        assert forall|i: int| 0 <= i < rest.len() implies loop_unit(
            #[trigger] rest.skip(i),
        ) == 0 by {
            assert(rest.skip(i) =~= t.skip(i + 1));
        }
        law_loop_free_is_kept(rest);
        assert(collapsed(t) =~= t);
    }
}

/// A phrase of one to four words repeated four times or more, with no shorter loop in front,
/// becomes one copy, and what follows the loop is collapsed by itself.
pub proof fn law_loop_becomes_one_copy<T>(t: Seq<T>, n: nat)
    requires
        loop_unit(t) == n,
        n > 0,
    ensures
        1 <= n <= MAX_PHRASE,
        repeats(t, n) >= MIN_RUN,
        collapsed(t) == t.take(n as int) + collapsed(t.skip((n * repeats(t, n)) as int)),
{
}

/// One word said `k` times and nothing else: one copy from four on, and as it was below that.
pub proof fn law_stuck_word<T>(w: T, k: nat)
    ensures
        collapsed(Seq::new(k, |i: int| w)) == if k >= MIN_RUN {
            seq![w]
        } else {
            Seq::new(k, |i: int| w)
        },
{
    let t = Seq::new(k, |i: int| w);
    if k == 0 {
        assert(collapsed(t) =~= t);
    } else if k >= MIN_RUN {
        lemma_stuck_repeats(w, k);
        assert(loops(t, 1));
        assert(t.skip(k as int).len() == 0);
        assert(collapsed(t.skip(k as int)).len() == 0);
        assert(1 * repeats(t, 1) == k);
        assert(collapsed(t) =~= seq![w]);
    } else {
        assert forall|i: int| 0 <= i < t.len() implies loop_unit(#[trigger] t.skip(i)) == 0 by {
            let u = t.skip(i);
            assert forall|n: nat| 1 <= n <= 4 implies !#[trigger] loops(u, n) by {
                if n <= u.len() {
                    lemma_repeats(u, n);
                    assert(repeats(u, n) <= n * repeats(u, n)) by (nonlinear_arith)
                        requires
                            n >= 1,
                    ;
                }
            }
            assert(!loops(u, 1) && !loops(u, 2) && !loops(u, 3) && !loops(u, 4));
        }
        law_loop_free_is_kept(t);
    }
}

proof fn lemma_stuck_repeats<T>(w: T, k: nat)
    requires
        k >= 1,
    ensures
        repeats(Seq::new(k, |i: int| w), 1) == k,
    decreases k,
{
    let t = Seq::new(k, |i: int| w);
    if k > 1 {
        let u = Seq::new((k - 1) as nat, |i: int| w);
        lemma_stuck_repeats(w, (k - 1) as nat);
        assert(t.skip(1) =~= u);
        assert(t.take(1) =~= t.subrange(1, 2));
    }
}

/// A phrase of `n` words stands four times in a row at the front.
pub open spec fn stands_four_times<T>(t: Seq<T>, n: int) -> bool {
    &&& 4 * n <= t.len()
    &&& forall|j: int| 0 <= j < 3 * n ==> #[trigger] t[j] == t[j + n]
}

/// `k` copies of a phrase, one after the other.
pub open spec fn copies<T>(phrase: Seq<T>, k: nat) -> Seq<T>
    decreases k,
{
    if k == 0 {
        seq![]
    } else {
        phrase + copies(phrase, (k - 1) as nat)
    }
}

proof fn lemma_copies_len<T>(phrase: Seq<T>, k: nat)
    ensures
        copies(phrase, k).len() == phrase.len() * k,
    decreases k,
{
    if k > 0 {
        lemma_copies_len(phrase, (k - 1) as nat);
        assert(phrase.len() * k == phrase.len() + phrase.len() * (k - 1)) by (nonlinear_arith);
    } else {
        assert(phrase.len() * k == 0) by (nonlinear_arith)
            requires
                k == 0,
        ;
    }
}

/// The count of the copies at the front, where what follows them is not another.
proof fn lemma_copies_repeat<T>(phrase: Seq<T>, k: nat, rest: Seq<T>)
    requires
        phrase.len() > 0,
        k >= 1,
        rest.len() < phrase.len() || rest.take(phrase.len() as int) != phrase,
    ensures
        repeats(copies(phrase, k) + rest, phrase.len()) == k,
        (copies(phrase, k) + rest).take(phrase.len() as int) == phrase,
        (copies(phrase, k) + rest).skip((phrase.len() * k) as int) == rest,
    decreases k,
{
    let n = phrase.len();
    let fewer = copies(phrase, (k - 1) as nat) + rest;
    let t = copies(phrase, k) + rest;
    lemma_copies_len(phrase, k);
    assert(t =~= phrase + fewer);
    assert(t.take(n as int) =~= phrase);
    assert(t.skip((n * k) as int) =~= rest);
    assert(t.skip(n as int) =~= fewer);
    if k == 1 {
        assert(fewer =~= rest);
        if 2 * n <= t.len() {
            assert(t.subrange(n as int, 2 * n as int) =~= rest.take(n as int));
        }
    } else {
        lemma_copies_repeat(phrase, (k - 1) as nat, rest);
        lemma_copies_len(phrase, (k - 1) as nat);
        assert(n * (k - 1) >= n) by (nonlinear_arith)
            requires
                k >= 2,
        ;
        assert(t.subrange(n as int, 2 * n as int) =~= fewer.take(n as int));
    }
}

/// What is counted is what stands there: four copies or more, exactly where the phrase stands four
/// times in a row.
proof fn lemma_four_times<T>(t: Seq<T>, n: nat)
    requires
        0 < n,
    ensures
        (n <= t.len() && repeats(t, n) >= 4) == stands_four_times(t, n as int),
{
    let d = n as int;
    if n <= t.len() && repeats(t, n) >= 4 {
        lemma_repeats_shift(t, n, 4);
        assert(stands_four_times(t, d));
    }
    if stands_four_times(t, d) {
        lemma_shift_repeats(t, n, 4);
    }
}

proof fn lemma_repeats_shift<T>(t: Seq<T>, n: nat, k: nat)
    requires
        0 < n <= t.len(),
        1 <= k <= 4,
        repeats(t, n) >= k,
    ensures
        k * n <= t.len(),
        forall|j: int| 0 <= j < (k - 1) * n ==> #[trigger] t[j] == t[j + n],
    decreases k,
{
    if k > 1 {
        let rest = t.skip(n as int);
        assert(t.take(n as int) == t.subrange(n as int, 2 * n as int));
        lemma_repeats_shift(rest, n, (k - 1) as nat);
        assert(k * n == (k - 1) * n + n) by (nonlinear_arith);
        assert((k - 1) * n == (k - 2) * n + n) by (nonlinear_arith);
        assert forall|j: int| 0 <= j < (k - 1) * n implies #[trigger] t[j] == t[j + n] by {
            if j < n {
                assert(t.take(n as int)[j] == t.subrange(n as int, 2 * n as int)[j]);
            } else {
                assert(rest[j - n] == rest[j - n + n]);
            }
        }
    } else {
        assert(k * n == n) by (nonlinear_arith)
            requires
                k == 1,
        ;
        assert((k - 1) * n == 0) by (nonlinear_arith)
            requires
                k == 1,
        ;
    }
}

proof fn lemma_shift_repeats<T>(t: Seq<T>, n: nat, k: nat)
    requires
        0 < n,
        1 <= k <= 4,
        k * n <= t.len(),
        forall|j: int| 0 <= j < (k - 1) * n ==> #[trigger] t[j] == t[j + n],
    ensures
        n <= t.len(),
        repeats(t, n) >= k,
    decreases k,
{
    assert(k * n >= n) by (nonlinear_arith)
        requires
            k >= 1,
    ;
    if k > 1 {
        let rest = t.skip(n as int);
        assert(k * n == (k - 1) * n + n) by (nonlinear_arith);
        assert((k - 1) * n == (k - 2) * n + n) by (nonlinear_arith);
        assert((k - 2) * n >= 0) by (nonlinear_arith)
            requires
                k >= 2,
        ;
        assert(t.take(n as int) =~= t.subrange(n as int, 2 * n as int)) by {
            assert forall|j: int| 0 <= j < n implies t.take(n as int)[j] == t.subrange(
                n as int,
                2 * n as int,
            )[j] by {
                assert(t[j] == t[j + n]);
            }
        }
        assert forall|j: int| 0 <= j < (k - 2) * n implies #[trigger] rest[j] == rest[j + n] by {
            assert(t[j + n] == t[j + n + n]);
        }
        lemma_shift_repeats(rest, n, (k - 1) as nat);
    }
}

/// A phrase of one to four words that is said four times or more in a row, as often as it stands
/// there, becomes one copy, and what follows is collapsed by itself; unless a shorter phrase stands
/// four times in a row at the same place, which goes first.
pub proof fn law_said_over_and_over_becomes_once<T>(phrase: Seq<T>, k: nat, rest: Seq<T>)
    requires
        1 <= phrase.len() <= 4,
        k >= 4,
        rest.len() < phrase.len() || rest.take(phrase.len() as int) != phrase,
        forall|m: int|
            1 <= m < phrase.len() ==> !#[trigger] stands_four_times(copies(phrase, k) + rest, m),
    ensures
        collapsed(copies(phrase, k) + rest) == phrase + collapsed(rest),
{
    let t = copies(phrase, k) + rest;
    let n = phrase.len();
    lemma_copies_repeat(phrase, k, rest);
    lemma_copies_len(phrase, k);
    assert(n * k >= n) by (nonlinear_arith)
        requires
            k >= 1,
    ;
    lemma_four_times(t, 1);
    lemma_four_times(t, 2);
    lemma_four_times(t, 3);
    lemma_four_times(t, 4);
    assert(loop_unit(t) == n) by {
        assert(n > 1 ==> !stands_four_times(t, 1));
        assert(n > 2 ==> !stands_four_times(t, 2));
        assert(n > 3 ==> !stands_four_times(t, 3));
    }
}

/// Where no phrase of one to four words stands four times in a row, the word in front stays, and
/// what follows is collapsed by itself.
pub proof fn law_other_words_stay<T>(word: T, rest: Seq<T>)
    requires
        forall|m: int|
            1 <= m <= 4 ==> !#[trigger] stands_four_times(seq![word] + rest, m),
    ensures
        collapsed(seq![word] + rest) == seq![word] + collapsed(rest),
        collapsed(Seq::<T>::empty()) == Seq::<T>::empty(),
{
    let t = seq![word] + rest;
    lemma_four_times(t, 1);
    lemma_four_times(t, 2);
    lemma_four_times(t, 3);
    lemma_four_times(t, 4);
    assert(!stands_four_times(t, 1) && !stands_four_times(t, 2) && !stands_four_times(t, 3)
        && !stands_four_times(t, 4));
    assert(t.skip(1) =~= rest);
}

/// A text of a phrase of one to four words, said four times or more and nothing else, comes out as
/// the phrase, its words one space apart.
pub proof fn law_stuck_phrase_comes_out_once(s: Seq<char>, phrase: Seq<Seq<char>>, k: nat)
    requires
        text::words(s) == copies(phrase, k),
        1 <= phrase.len() <= 4,
        k >= 4,
        forall|m: int|
            1 <= m < phrase.len() ==> !#[trigger] stands_four_times(text::words(s), m),
    ensures
        collapsed_text(s) == text::join(phrase),
{
    let none = Seq::<Seq<char>>::empty();
    assert(copies(phrase, k) + none =~= copies(phrase, k));
    law_said_over_and_over_becomes_once(phrase, k, none);
    assert(collapsed(none) =~= none);
    assert(phrase + collapsed(none) =~= phrase);
}

/// The words of a text with its loops collapsed are joined by single spaces, and nothing else is in
/// it.
pub proof fn law_collapsed_text_is_its_words(s: Seq<char>)
    ensures
        collapsed_text(s) == text::join(text::words(collapsed_text(s))),
        text::words(collapsed_text(s)) == collapsed(text::words(s)),
{
    law_collapsed_words(s);
}

/// The word that a warning names is the last of the longest that are Latin letters alone: none of
/// those after it is as long. There is a warning from twenty-one letters on.
pub proof fn law_warning_names_the_last_longest(ws: Seq<Seq<char>>)
    requires
        longest_run(ws).len() > 0,
    ensures
        exists|i: int|
            {
                &&& 0 <= i < ws.len()
                &&& #[trigger] ws[i] == longest_run(ws)
                &&& forall|k: int|
                    0 <= k < ws[i].len() ==> ('a' <= #[trigger] ws[i][k] <= 'z' || 'A' <= ws[i][k]
                        <= 'Z')
                &&& forall|j: int|
                    #![trigger ws[j]]
                    0 <= j < ws.len() && (forall|k: int|
                        0 <= k < ws[j].len() ==> ('a' <= #[trigger] ws[j][k] <= 'z' || 'A'
                            <= ws[j][k] <= 'Z')) ==> ws[j].len() < ws[i].len() || (ws[j].len()
                        == ws[i].len() && j <= i)
            },
    decreases ws.len(),
{
    let fewer = ws.drop_last();
    let n = ws.len() - 1;
    law_longest_run(ws);
    if latin_run(ws.last()) && ws.last().len() >= longest_run(fewer).len() {
        assert(ws[n] == longest_run(ws));
        assert forall|j: int|
            #![trigger ws[j]]
            0 <= j < ws.len() && (forall|k: int|
                0 <= k < ws[j].len() ==> ('a' <= #[trigger] ws[j][k] <= 'z' || 'A' <= ws[j][k]
                    <= 'Z')) implies ws[j].len() < ws[n].len() || (ws[j].len() == ws[n].len() && j
            <= n) by {
            assert(latin_run(ws[j]));
        }
    } else {
        law_warning_names_the_last_longest(fewer);
        let i = choose|i: int|
            {
                &&& 0 <= i < fewer.len()
                &&& #[trigger] fewer[i] == longest_run(fewer)
                &&& forall|j: int|
                    #![trigger fewer[j]]
                    0 <= j < fewer.len() && (forall|k: int|
                        0 <= k < fewer[j].len() ==> ('a' <= #[trigger] fewer[j][k] <= 'z' || 'A'
                            <= fewer[j][k] <= 'Z')) ==> fewer[j].len() < fewer[i].len() || (
                    fewer[j].len() == fewer[i].len() && j <= i)
            };
        assert(ws[i] == fewer[i]);
        assert forall|j: int|
            #![trigger ws[j]]
            0 <= j < ws.len() && (forall|k: int|
                0 <= k < ws[j].len() ==> ('a' <= #[trigger] ws[j][k] <= 'z' || 'A' <= ws[j][k]
                    <= 'Z')) implies ws[j].len() < ws[i].len() || (ws[j].len() == ws[i].len() && j
            <= i) by {
            if j < n {
                assert(fewer[j] == ws[j]);
            } else {
                assert(latin_run(ws[j]));
            }
        }
    }
}

/// The transcript of an utterance is made of its decodes in order: a window that was discarded
/// leaves nothing, and every other one what its text collapses to.
pub proof fn law_every_kept_decode_is_there(
    before: Seq<Option<String>>,
    decode: Option<String>,
    after: Seq<Option<String>>,
)
    ensures
        kept_pieces(before + seq![decode] + after) == kept_pieces(before) + (match decode {
            Some(d) => seq![collapsed_text(d@)],
            None => seq![],
        }) + kept_pieces(after),
        kept_pieces(Seq::<Option<String>>::empty()) == Seq::<Seq<char>>::empty(),
    decreases after.len(),
{
    let head = before + seq![decode];
    if after.len() == 0 {
        assert(head + after =~= head);
        assert(head.drop_last() =~= before);
        assert(kept_pieces(head + after) =~= kept_pieces(before) + (match decode {
            Some(d) => seq![collapsed_text(d@)],
            None => seq![],
        }) + kept_pieces(after));
    } else {
        let fewer = after.drop_last();
        law_every_kept_decode_is_there(before, decode, fewer);
        assert((head + after).drop_last() =~= head + fewer);
        assert((head + after).last() == after.last());
        assert(kept_pieces(head + after) =~= kept_pieces(before) + (match decode {
            Some(d) => seq![collapsed_text(d@)],
            None => seq![],
        }) + kept_pieces(after));
    }
}

/// What reaches the user is what was heard without the whitespace at its ends, corrected and
/// otherwise whole; and there is a warning exactly where a word of more than twenty Latin letters
/// is in it.
pub proof fn law_what_is_said_is_what_was_heard(
    said: Said,
    dict: Seq<crate::dictionary::Lexeme>,
    transcript: Seq<char>,
)
    requires
        said.of(dict, transcript),
    ensures
        said.heard@ == text::trim(transcript),
        said.fixed@ == correct::corrected_line(dict, text::trim(transcript)),
        said.warning.is_some() <==> exists|i: int|
            {
                &&& 0 <= i < text::words(text::trim(transcript)).len()
                &&& (#[trigger] text::words(text::trim(transcript))[i]).len() > 20
                &&& forall|k: int|
                    0 <= k < text::words(text::trim(transcript))[i].len() ==> ('a'
                        <= #[trigger] text::words(text::trim(transcript))[i][k] <= 'z' || 'A'
                        <= text::words(text::trim(transcript))[i][k] <= 'Z')
            },
        said.warning.is_some() ==> said.warning.unwrap()@ == fusion_message(
            longest_run(text::words(text::trim(transcript))),
        ),
{
    let ws = text::words(text::trim(transcript));
    law_warned_exactly_of_long_runs(ws);
    if exists|i: int| 0 <= i < ws.len() && latin_run(#[trigger] ws[i]) && ws[i].len() > FUSION_LIMIT {
        let i = choose|i: int|
            0 <= i < ws.len() && latin_run(#[trigger] ws[i]) && ws[i].len() > FUSION_LIMIT;
        assert(ws[i].len() > 20);
        assert forall|k: int| 0 <= k < ws[i].len() implies ('a' <= #[trigger] ws[i][k] <= 'z' || 'A'
            <= ws[i][k] <= 'Z') by {
            assert(correct::ascii_letter(ws[i][k]));
        }
    }
    assert forall|i: int|
        0 <= i < ws.len() && (#[trigger] ws[i]).len() > 20 && (forall|k: int|
            0 <= k < ws[i].len() ==> ('a' <= #[trigger] ws[i][k] <= 'z' || 'A' <= ws[i][k]
                <= 'Z')) implies latin_run(ws[i]) by {}
}

/// A warning names the word and how long it is.
pub proof fn law_warning_names_the_word(w: Seq<char>)
    ensures
        fusion_message(w) == "suspiciously long Latin run ("@ + number::decimal(w.len())
            + " chars): \""@ + w + "\""@,
{
}

/// The model is told to transcribe Bengali, without timestamps.
pub proof fn law_prompt_asks_for_bengali(i: int)
    requires
        0 <= i < prompt_tokens().len(),
    ensures
        prompt_tokens().len() == 4,
        prompt_tokens()[i] == seq![
            "<|startoftranscript|>"@,
            "<|bn|>"@,
            "<|transcribe|>"@,
            "<|notimestamps|>"@,
        ][i],
{
}

} // verus!
