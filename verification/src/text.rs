//! Plain text as a sequence of characters: whitespace, words, joining and trimming.

use vstd::prelude::*;

verus! {

/// `String::push` of std: the character goes onto the end and nothing else changes.
pub assume_specification[ String::push ](s: &mut String, c: char)
    ensures
        final(s)@ == old(s)@.push(c),
;

/// The characters with Unicode's White_Space property.
pub open spec fn white(c: char) -> bool {
    let u = c as u32;
    ||| 0x09 <= u <= 0x0d
    ||| u == 0x20
    ||| u == 0x85
    ||| u == 0xa0
    ||| u == 0x1680
    ||| 0x2000 <= u <= 0x200a
    ||| u == 0x2028
    ||| u == 0x2029
    ||| u == 0x202f
    ||| u == 0x205f
    ||| u == 0x3000
}

/// Whether `c` is whitespace.
pub fn is_space(c: char) -> (r: bool)
    ensures
        r == white(c),
{
    let u: u32 = c as u32;
    (0x09 <= u && u <= 0x0d) || u == 0x20 || u == 0x85 || u == 0xa0 || u == 0x1680 || (0x2000 <= u
        && u <= 0x200a) || u == 0x2028 || u == 0x2029 || u == 0x202f || u == 0x205f || u == 0x3000
}

/// The characters of each element.
pub open spec fn views(v: Seq<Vec<char>>) -> Seq<Seq<char>> {
    Seq::new(v.len(), |i: int| v[i]@)
}

/// The characters of each string.
pub open spec fn texts(v: Seq<String>) -> Seq<Seq<char>> {
    Seq::new(v.len(), |i: int| v[i]@)
}

/// How many characters stand before the first whitespace of `s`.
pub open spec fn word_len(s: Seq<char>) -> nat
    decreases s.len(),
{
    if s.len() == 0 || white(s[0]) {
        0
    } else {
        1 + word_len(s.skip(1))
    }
}

/// `s` cut at whitespace: its maximal runs of other characters, in order.
pub open spec fn words(s: Seq<char>) -> Seq<Seq<char>>
    decreases s.len(),
{
    if s.len() == 0 {
        seq![]
    } else if white(s[0]) {
        words(s.skip(1))
    } else {
        proof {
            lemma_word_len(s);
        }
        seq![s.take(word_len(s) as int)] + words(s.skip(word_len(s) as int))
    }
}

/// The pieces with one space between each two.
pub open spec fn join(pieces: Seq<Seq<char>>) -> Seq<char>
    decreases pieces.len(),
{
    if pieces.len() == 0 {
        seq![]
    } else if pieces.len() == 1 {
        pieces[0]
    } else {
        join(pieces.drop_last()) + seq![' '] + pieces.last()
    }
}

/// How many characters of `s` stand before its first non-whitespace one.
pub open spec fn lead(s: Seq<char>) -> nat
    decreases s.len(),
{
    if s.len() > 0 && white(s[0]) {
        1 + lead(s.skip(1))
    } else {
        0
    }
}

/// How many characters of `s` stand after its last non-whitespace one.
pub open spec fn trail(s: Seq<char>) -> nat
    decreases s.len(),
{
    if s.len() > 0 && white(s.last()) {
        1 + trail(s.drop_last())
    } else {
        0
    }
}

/// `s` without the whitespace at either end.
pub open spec fn trim(s: Seq<char>) -> Seq<char> {
    if lead(s) == s.len() {
        seq![]
    } else {
        s.subrange(lead(s) as int, s.len() - trail(s))
    }
}

/// A word: at least one character, none of them whitespace.
pub open spec fn is_word(w: Seq<char>) -> bool {
    &&& w.len() > 0
    &&& forall|i: int| 0 <= i < w.len() ==> !white(#[trigger] w[i])
}

pub proof fn lemma_word_len(s: Seq<char>)
    ensures
        word_len(s) <= s.len(),
        forall|i: int| 0 <= i < word_len(s) ==> !white(#[trigger] s[i]),
        word_len(s) < s.len() ==> white(s[word_len(s) as int]),
    decreases s.len(),
{
    if s.len() > 0 && !white(s[0]) {
        let t = s.skip(1);
        lemma_word_len(t);
        assert forall|i: int| 0 <= i < word_len(s) implies !white(#[trigger] s[i]) by {
            if i > 0 {
                assert(s[i] == t[i - 1]);
            }
        }
        if word_len(s) < s.len() {
            assert(s[word_len(s) as int] == t[word_len(t) as int]);
        }
    }
}

/// A run of `n` other characters that ends at whitespace or at the end has length `n`.
pub proof fn lemma_word_len_is(s: Seq<char>, n: int)
    requires
        0 <= n <= s.len(),
        forall|i: int| 0 <= i < n ==> !white(#[trigger] s[i]),
        n < s.len() ==> white(s[n]),
    ensures
        word_len(s) == n,
{
    lemma_word_len(s);
    if word_len(s) < n {
        assert(!white(s[word_len(s) as int]));
    }
    if n < word_len(s) {
        assert(!white(s[n]));
    }
}

/// Every word is a word.
pub proof fn law_words_are_words(s: Seq<char>)
    ensures
        forall|i: int| 0 <= i < words(s).len() ==> is_word(#[trigger] words(s)[i]),
    decreases s.len(),
{
    if s.len() == 0 {
        assert(words(s).len() == 0);
    } else {
        if white(s[0]) {
            law_words_are_words(s.skip(1));
            assert(words(s) == words(s.skip(1)));
        } else {
            lemma_word_len(s);
            let n = word_len(s) as int;
            law_words_are_words(s.skip(n));
            assert forall|i: int| 0 <= i < words(s).len() implies is_word(
                #[trigger] words(s)[i],
            ) by {
                if i == 0 {
                    let w = s.take(n);
                    assert forall|k: int| 0 <= k < w.len() implies !white(#[trigger] w[k]) by {
                        assert(w[k] == s[k]);
                    }
                } else {
                    assert(words(s)[i] == words(s.skip(n))[i - 1]);
                }
            }
        }
    }
}

/// A word in front of whitespace is the first word, and what follows is cut by itself.
pub proof fn lemma_words_cons(w: Seq<char>, sep: char, rest: Seq<char>)
    requires
        is_word(w),
        white(sep),
    ensures
        words(w + seq![sep] + rest) == seq![w] + words(rest),
        words(w) == seq![w],
{
    let s = w + seq![sep] + rest;
    assert forall|i: int| 0 <= i < w.len() implies !white(#[trigger] s[i]) by {
        assert(s[i] == w[i]);
    }
    lemma_word_len_is(s, w.len() as int);
    assert(s[0] == w[0]);
    assert(s.take(w.len() as int) =~= w);
    let t = s.skip(w.len() as int);
    assert(t[0] == sep);
    assert(t.skip(1) =~= rest);
    assert(words(t) == words(rest));
    lemma_word_len_is(w, w.len() as int);
    assert(w.take(w.len() as int) =~= w);
    assert(words(w.skip(w.len() as int)).len() == 0);
    assert(words(w) =~= seq![w]);
}

/// The pieces joined, seen from the front.
pub proof fn lemma_join_front(pieces: Seq<Seq<char>>)
    requires
        pieces.len() > 1,
    ensures
        join(pieces) == pieces[0] + seq![' '] + join(pieces.skip(1)),
    decreases pieces.len(),
{
    let rest = pieces.skip(1);
    if pieces.len() == 2 {
        assert(pieces.drop_last()[0] == pieces[0]);
        assert(join(pieces.drop_last()) == pieces[0]);
        assert(rest[0] == pieces[1]);
    } else {
        lemma_join_front(pieces.drop_last());
        assert(pieces.drop_last().skip(1) =~= rest.drop_last());
        assert(join(rest) == join(rest.drop_last()) + seq![' '] + pieces.last());
        assert(join(pieces) =~= pieces[0] + seq![' '] + join(rest));
    }
}

/// Cutting a line that was joined out of words gives the words back.
pub proof fn law_words_of_join(ws: Seq<Seq<char>>)
    requires
        forall|i: int| 0 <= i < ws.len() ==> is_word(#[trigger] ws[i]),
    ensures
        words(join(ws)) == ws,
    decreases ws.len(),
{
    if ws.len() == 0 {
        assert(words(join(ws)) =~= ws);
    } else if ws.len() == 1 {
        assert(is_word(ws[0]));
        lemma_words_cons(ws[0], ' ', seq![]);
        assert(ws =~= seq![ws[0]]);
    } else {
        lemma_join_front(ws);
        let rest = ws.skip(1);
        assert forall|i: int| 0 <= i < rest.len() implies is_word(#[trigger] rest[i]) by {
            assert(rest[i] == ws[i + 1]);
        }
        law_words_of_join(rest);
        assert(is_word(ws[0]));
        lemma_words_cons(ws[0], ' ', join(rest));
        assert(ws =~= seq![ws[0]] + rest);
    }
}

/// Whitespace cuts a text in two: the words are those before it and then those after it.
pub proof fn law_words_of_two_parts(left: Seq<char>, gap: char, right: Seq<char>)
    requires
        white(gap),
    ensures
        words(left + seq![gap] + right) == words(left) + words(right),
    decreases left.len(),
{
    let s = left + seq![gap] + right;
    if left.len() == 0 {
        assert(s[0] == gap);
        assert(s.skip(1) =~= right);
        assert(words(s) == words(right));
        assert(words(left).len() == 0);
        assert(words(left) + words(right) =~= words(right));
    } else if white(left[0]) {
        assert(s[0] == left[0]);
        assert(s.skip(1) =~= left.skip(1) + seq![gap] + right);
        law_words_of_two_parts(left.skip(1), gap, right);
        assert(words(left) == words(left.skip(1)));
    } else {
        lemma_word_len(left);
        let n = word_len(left) as int;
        assert(s[0] == left[0]);
        assert forall|i: int| 0 <= i < n implies !white(#[trigger] s[i]) by {
            assert(s[i] == left[i]);
        }
        if n < left.len() {
            assert(s[n] == left[n]);
        } else {
            assert(s[n] == gap);
        }
        lemma_word_len_is(s, n);
        assert(s.take(n) =~= left.take(n));
        assert(s.skip(n) =~= left.skip(n) + seq![gap] + right);
        law_words_of_two_parts(left.skip(n), gap, right);
        assert(words(left) == seq![left.take(n)] + words(left.skip(n)));
        assert(words(s) =~= words(left) + words(right));
    }
}

/// The pieces one after the other, with nothing between.
pub open spec fn packed(pieces: Seq<Seq<char>>) -> Seq<char>
    decreases pieces.len(),
{
    if pieces.len() == 0 {
        seq![]
    } else {
        pieces[0] + packed(pieces.skip(1))
    }
}

/// `s` without its whitespace.
pub open spec fn dense(s: Seq<char>) -> Seq<char>
    decreases s.len(),
{
    if s.len() == 0 {
        seq![]
    } else if white(s[0]) {
        dense(s.skip(1))
    } else {
        seq![s[0]] + dense(s.skip(1))
    }
}

proof fn lemma_dense_word(s: Seq<char>, n: int)
    requires
        0 <= n <= s.len(),
        forall|i: int| 0 <= i < n ==> !white(#[trigger] s[i]),
    ensures
        dense(s) == s.take(n) + dense(s.skip(n)),
    decreases n,
{
    if n == 0 {
        assert(s.skip(0) =~= s);
        assert(dense(s) =~= s.take(0) + dense(s));
    } else {
        let t = s.skip(1);
        assert(!white(s[0]));
        assert forall|i: int| 0 <= i < n - 1 implies !white(#[trigger] t[i]) by {
            assert(t[i] == s[i + 1]);
        }
        lemma_dense_word(t, n - 1);
        assert(t.skip(n - 1) =~= s.skip(n));
        assert(s.take(n) =~= seq![s[0]] + t.take(n - 1));
        assert(dense(s) =~= s.take(n) + dense(s.skip(n)));
    }
}

/// Cutting a text into words loses nothing but its whitespace.
pub proof fn law_words_lose_only_whitespace(s: Seq<char>)
    ensures
        packed(words(s)) == dense(s),
    decreases s.len(),
{
    if s.len() == 0 {
        assert(packed(words(s)) =~= dense(s));
    } else if white(s[0]) {
        law_words_lose_only_whitespace(s.skip(1));
        assert(words(s) == words(s.skip(1)));
    } else {
        lemma_word_len(s);
        let n = word_len(s) as int;
        law_words_lose_only_whitespace(s.skip(n));
        lemma_dense_word(s, n);
        assert(words(s) == seq![s.take(n)] + words(s.skip(n)));
        assert(words(s)[0] == s.take(n));
        assert(words(s).skip(1) =~= words(s.skip(n)));
    }
}

/// A line with single spaces stays as it is when it is cut and joined again.
pub proof fn law_single_spaces_are_stable(s: Seq<char>)
    ensures
        join(words(join(words(s)))) == join(words(s)),
{
    law_words_are_words(s);
    law_words_of_join(words(s));
}

/// A trimmed text neither begins nor ends with whitespace.
pub proof fn law_trimmed_has_no_edges(s: Seq<char>)
    ensures
        trim(s).len() > 0 ==> !white(trim(s)[0]) && !white(trim(s).last()),
{
    lemma_lead(s);
    lemma_trail(s);
    if lead(s) < s.len() && lead(s) + trail(s) >= s.len() {
        assert(white(s[lead(s) as int]));
    }
}

proof fn lemma_lead(s: Seq<char>)
    ensures
        lead(s) <= s.len(),
        forall|i: int| 0 <= i < lead(s) ==> white(#[trigger] s[i]),
        lead(s) < s.len() ==> !white(s[lead(s) as int]),
    decreases s.len(),
{
    if s.len() > 0 && white(s[0]) {
        let t = s.skip(1);
        lemma_lead(t);
        assert forall|i: int| 0 <= i < lead(s) implies white(#[trigger] s[i]) by {
            if i > 0 {
                assert(s[i] == t[i - 1]);
            }
        }
        if lead(s) < s.len() {
            assert(s[lead(s) as int] == t[lead(t) as int]);
        }
    }
}

proof fn lemma_trail(s: Seq<char>)
    ensures
        trail(s) <= s.len(),
        forall|i: int| s.len() - trail(s) <= i < s.len() ==> white(#[trigger] s[i]),
        trail(s) < s.len() ==> !white(s[s.len() - trail(s) - 1]),
    decreases s.len(),
{
    if s.len() > 0 && white(s.last()) {
        let t = s.drop_last();
        lemma_trail(t);
        assert forall|i: int| s.len() - trail(s) <= i < s.len() implies white(
            #[trigger] s[i],
        ) by {
            if i < s.len() - 1 {
                assert(s[i] == t[i]);
            }
        }
    }
}

/// The characters of a text, one by one.
pub fn chars_of(text: &str) -> (r: Vec<char>)
    ensures
        r@ == text@,
{
    let mut out: Vec<char> = Vec::new();
    for c in it: text.chars()
        invariant
            out@ == it.seq().take(it.index() as int),
            it.seq() == text@,
    {
        out.push(c);
    }
    out
}

/// The text made of the given characters.
pub fn text_of(chars: &[char]) -> (r: String)
    ensures
        r@ == chars@,
{
    let mut out = String::new();
    for i in 0..chars.len()
        invariant
            out@ == chars@.take(i as int),
    {
        out.push(chars[i]);
    }
    assert(chars@.take(chars@.len() as int) =~= chars@);
    out
}

/// Whether two character sequences are the same.
pub fn same_chars(a: &[char], b: &[char]) -> (r: bool)
    ensures
        r == (a@ == b@),
{
    if a.len() != b.len() {
        return false;
    }
    for i in 0..a.len()
        invariant
            a@.len() == b@.len(),
            forall|k: int| 0 <= k < i ==> a@[k] == b@[k],
    {
        if a[i] != b[i] {
            assert(a@[i as int] != b@[i as int]);
            return false;
        }
    }
    assert(a@ =~= b@);
    true
}

/// Whether two texts are the same.
pub fn same_text(a: &str, b: &str) -> (r: bool)
    ensures
        r == (a@ == b@),
{
    let ca = chars_of(a);
    let cb = chars_of(b);
    same_chars(ca.as_slice(), cb.as_slice())
}

/// A copy of the characters from `from` up to `to`.
pub fn slice_of(chars: &[char], from: usize, to: usize) -> (r: Vec<char>)
    requires
        from <= to <= chars@.len(),
    ensures
        r@ == chars@.subrange(from as int, to as int),
{
    let mut out: Vec<char> = Vec::new();
    for i in from..to
        invariant
            from <= to <= chars@.len(),
            out@ == chars@.subrange(from as int, i as int),
    {
        out.push(chars[i]);
        assert(chars@.subrange(from as int, i as int).push(chars@[i as int]) =~= chars@.subrange(
            from as int,
            i + 1,
        ));
    }
    out
}

/// Appends characters to a text.
pub fn push_chars(out: &mut String, chars: &[char])
    ensures
        final(out)@ == old(out)@ + chars@,
{
    for i in 0..chars.len()
        invariant
            out@ == old(out)@ + chars@.take(i as int),
    {
        out.push(chars[i]);
        assert(chars@.take(i as int).push(chars@[i as int]) =~= chars@.take(i + 1));
    }
    assert(chars@.take(chars@.len() as int) =~= chars@);
}

proof fn lemma_lead_is(s: Seq<char>, n: int)
    requires
        0 <= n <= s.len(),
        forall|i: int| 0 <= i < n ==> white(#[trigger] s[i]),
        n < s.len() ==> !white(s[n]),
    ensures
        lead(s) == n,
    decreases n,
{
    if n > 0 {
        let t = s.skip(1);
        assert(white(s[0]));
        assert forall|i: int| 0 <= i < n - 1 implies white(#[trigger] t[i]) by {
            assert(t[i] == s[i + 1]);
        }
        lemma_lead_is(t, n - 1);
    }
}

proof fn lemma_trail_is(s: Seq<char>, end: int)
    requires
        0 <= end <= s.len(),
        forall|i: int| end <= i < s.len() ==> white(#[trigger] s[i]),
        end > 0 ==> !white(s[end - 1]),
    ensures
        s.len() - trail(s) == end,
    decreases s.len() - end,
{
    if end < s.len() {
        assert(white(s[s.len() - 1]));
        lemma_trail_is(s.drop_last(), end);
    }
}

/// A text without the whitespace at either end.
pub fn trimmed(s: &str) -> (r: String)
    ensures
        r@ == trim(s@),
{
    let chars = chars_of(s);
    let mut start: usize = 0;
    while start < chars.len() && is_space(chars[start])
        invariant
            start <= chars@.len(),
            forall|k: int| 0 <= k < start ==> white(#[trigger] chars@[k]),
        ensures
            start < chars@.len() ==> !white(chars@[start as int]),
        decreases chars@.len() - start,
    {
        start = start + 1;
    }
    proof {
        lemma_lead_is(chars@, start as int);
    }
    if start == chars.len() {
        return String::new();
    }
    let mut end: usize = chars.len();
    while end > 0 && is_space(chars[end - 1])
        invariant
            end <= chars@.len(),
            forall|k: int| end <= k < chars@.len() ==> white(#[trigger] chars@[k]),
        ensures
            end > 0 ==> !white(chars@[end - 1]),
        decreases end,
    {
        end = end - 1;
    }
    proof {
        lemma_trail_is(chars@, end as int);
        if end <= start {
            assert(white(chars@[start as int]));
        }
    }
    let kept = slice_of(chars.as_slice(), start, end);
    text_of(kept.as_slice())
}

/// The words of a line.
pub fn split_words(text: &str) -> (r: Vec<Vec<char>>)
    ensures
        views(r@) == words(text@),
{
    let chars = chars_of(text);
    let mut out: Vec<Vec<char>> = Vec::new();
    let mut i: usize = 0;
    assert(chars@.skip(0) =~= chars@);
    assert(views(out@) + words(chars@) =~= words(chars@));
    while i < chars.len()
        invariant
            i <= chars@.len(),
            views(out@) + words(chars@.skip(i as int)) == words(chars@),
        decreases chars@.len() - i,
    {
        let ghost rest = chars@.skip(i as int);
        if is_space(chars[i]) {
            assert(rest[0] == chars@[i as int]);
            assert(rest.skip(1) =~= chars@.skip(i + 1));
            i = i + 1;
        } else {
            let start: usize = i;
            while i < chars.len() && !is_space(chars[i])
                invariant
                    start <= i <= chars@.len(),
                    forall|k: int| start <= k < i ==> !white(#[trigger] chars@[k]),
                ensures
                    i < chars@.len() ==> white(chars@[i as int]),
                decreases chars@.len() - i,
            {
                i = i + 1;
            }
            let word = slice_of(chars.as_slice(), start, i);
            proof {
                let n = i - start;
                assert forall|k: int| 0 <= k < n implies !white(#[trigger] rest[k]) by {
                    assert(rest[k] == chars@[start + k]);
                }
                if n < rest.len() {
                    assert(rest[n] == chars@[i as int]);
                }
                lemma_word_len_is(rest, n);
                assert(rest.take(n) =~= word@);
                assert(rest.skip(n) =~= chars@.skip(i as int));
                assert(rest[0] == chars@[start as int]);
                assert(views(out@.push(word)) =~= views(out@).push(word@));
                assert(views(out@).push(word@) + words(chars@.skip(i as int)) =~= views(out@) + (
                seq![word@] + words(chars@.skip(i as int))));
            }
            out.push(word);
        }
    }
    assert(chars@.skip(i as int).len() == 0);
    assert(views(out@) + words(chars@.skip(i as int)) =~= views(out@));
    out
}

/// The words with one space between each two.
pub fn join_words(ws: &Vec<Vec<char>>) -> (r: String)
    ensures
        r@ == join(views(ws@)),
{
    let mut out = String::new();
    for i in 0..ws.len()
        invariant
            out@ == join(views(ws@).take(i as int)),
    {
        proof {
            let v = views(ws@);
            assert(v.take(i + 1).drop_last() =~= v.take(i as int));
            assert(v.take(i + 1).last() == ws@[i as int]@);
            assert(v.take(i as int).len() == i);
        }
        if i > 0 {
            out.push(' ');
        }
        push_chars(&mut out, ws[i].as_slice());
        assert(out@ =~= join(views(ws@).take(i + 1)));
    }
    assert(views(ws@).take(ws@.len() as int) =~= views(ws@));
    out
}

/// The strings with one space between each two.
pub fn join_texts(pieces: &Vec<String>) -> (r: String)
    ensures
        r@ == join(texts(pieces@)),
{
    let mut out = String::new();
    for i in 0..pieces.len()
        invariant
            out@ == join(texts(pieces@).take(i as int)),
    {
        proof {
            let v = texts(pieces@);
            assert(v.take(i + 1).drop_last() =~= v.take(i as int));
            assert(v.take(i + 1).last() == pieces@[i as int]@);
            assert(v.take(i as int).len() == i);
        }
        if i > 0 {
            out.push(' ');
        }
        out.append(pieces[i].as_str());
        assert(out@ =~= join(texts(pieces@).take(i + 1)));
    }
    assert(texts(pieces@).take(pieces@.len() as int) =~= texts(pieces@));
    out
}

/// Texts are joined one space apart: joining two lists one after the other puts one space between
/// them, and a list of one is its text.
pub proof fn law_joined_one_space_apart(a: Seq<Seq<char>>, b: Seq<Seq<char>>, piece: Seq<char>)
    requires
        a.len() > 0,
        b.len() > 0,
    ensures
        join(a + b) == join(a) + seq![' '] + join(b),
        join(seq![piece]) == piece,
        join(Seq::<Seq<char>>::empty()) == Seq::<char>::empty(),
    decreases b.len(),
{
    let all = a + b;
    let fewer = b.drop_last();
    assert(all.drop_last() =~= a + fewer);
    assert(all.last() == b.last());
    if b.len() == 1 {
        assert(a + fewer =~= a);
    } else {
        law_joined_one_space_apart(a, fewer, piece);
        assert(join(all) =~= join(a) + seq![' '] + join(b));
    }
}

/// Trimming takes exactly the whitespace at either end, whatever stands between.
pub proof fn law_trim_takes_the_edges(before: Seq<char>, core: Seq<char>, after: Seq<char>)
    requires
        forall|i: int| 0 <= i < before.len() ==> white(#[trigger] before[i]),
        forall|i: int| 0 <= i < after.len() ==> white(#[trigger] after[i]),
        core.len() > 0 ==> !white(core[0]) && !white(core.last()),
    ensures
        trim(before + core + after) == core,
{
    let s = before + core + after;
    let start = before.len() as int;
    let end = (before.len() + core.len()) as int;
    if core.len() == 0 {
        assert forall|i: int| 0 <= i < s.len() implies white(#[trigger] s[i]) by {
            if i < start {
                assert(s[i] == before[i]);
            } else {
                assert(s[i] == after[i - end]);
            }
        }
        lemma_lead_is(s, s.len() as int);
        assert(trim(s) =~= core);
    } else {
        assert forall|i: int| 0 <= i < start implies white(#[trigger] s[i]) by {
            assert(s[i] == before[i]);
        }
        assert(s[start] == core[0]);
        lemma_lead_is(s, start);
        assert forall|i: int| end <= i < s.len() implies white(#[trigger] s[i]) by {
            assert(s[i] == after[i - end]);
        }
        assert(s[end - 1] == core.last());
        lemma_trail_is(s, end);
        assert(trim(s) =~= core);
    }
}

/// A run of characters without whitespace is one word, whole; nothing is no word; and whitespace
/// alone is none.
pub proof fn law_a_run_is_one_word(w: Seq<char>, gap: char)
    requires
        w.len() > 0,
        forall|i: int| 0 <= i < w.len() ==> !white(#[trigger] w[i]),
        white(gap),
    ensures
        words(w) == seq![w],
        words(Seq::<char>::empty()) == Seq::<Seq<char>>::empty(),
        words(seq![gap]) == Seq::<Seq<char>>::empty(),
{
    lemma_words_cons(w, gap, seq![]);
    assert(seq![gap].skip(1) =~= Seq::<char>::empty());
}

/// Whitespace is what Unicode calls it.
pub proof fn law_whitespace_is_unicodes(c: char)
    ensures
        white(c) <==> set![
            9u32, 10, 11, 12, 13, 32, 133, 160, 5760, 8192, 8193, 8194, 8195, 8196, 8197, 8198, 8199,
            8200, 8201, 8202, 8232, 8233, 8239, 8287, 12288,
        ].contains(c as u32),
{
}

/// A list of texts is looked at text by text.
pub proof fn law_lists_are_looked_at_one_by_one(v: Seq<Vec<char>>, t: Seq<String>, i: int)
    requires
        0 <= i < v.len(),
        0 <= i < t.len(),
    ensures
        views(v).len() == v.len(),
        views(v)[i] == v[i]@,
        texts(t).len() == t.len(),
        texts(t)[i] == t[i]@,
{
}

} // verus!
