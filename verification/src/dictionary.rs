//! The dictionary: its text form, its order, and lookup.

use crate::text;
use vstd::prelude::*;

verus! {

/// One attested word and how common it is.
pub struct Lexeme {
    pub word: Seq<char>,
    pub zipf: int,
}

/// A line of the dictionary whose second field has been read as a number, or could not be.
pub struct Row {
    pub word: String,
    pub zipf: Option<i64>,
}

/// How many characters of `s` stand before the first `c`; all of them where there is none.
pub open spec fn upto(s: Seq<char>, c: char) -> nat
    decreases s.len(),
{
    if s.len() == 0 || s[0] == c {
        0
    } else {
        1 + upto(s.skip(1), c)
    }
}

/// A line without a carriage return at its end.
pub open spec fn without_return(line: Seq<char>) -> Seq<char> {
    if line.len() > 0 && line.last() == '\r' {
        line.drop_last()
    } else {
        line
    }
}

/// The lines of a text. A line ends at a newline, and a carriage return right before the newline
/// belongs to the ending. The last line needs no ending, and then keeps every character.
pub open spec fn lines(s: Seq<char>) -> Seq<Seq<char>>
    decreases s.len(),
{
    let n = upto(s, '\n') as int;
    if s.len() == 0 {
        seq![]
    } else if n >= s.len() {
        seq![s]
    } else {
        seq![without_return(s.take(n))] + lines(s.skip(n + 1))
    }
}

/// The two fields of each line that has a tab: what stands before the first tab, and what follows
/// it. Other lines are passed over.
pub open spec fn fields(ls: Seq<Seq<char>>) -> Seq<(Seq<char>, Seq<char>)>
    decreases ls.len(),
{
    if ls.len() == 0 {
        seq![]
    } else {
        let line = ls.last();
        let n = upto(line, '\t') as int;
        if n < line.len() {
            fields(ls.drop_last()).push((line.take(n), line.skip(n + 1)))
        } else {
            fields(ls.drop_last())
        }
    }
}

/// The characters of both fields of each pair.
pub open spec fn pair_views(v: Seq<(String, String)>) -> Seq<(Seq<char>, Seq<char>)> {
    Seq::new(v.len(), |i: int| (v[i].0@, v[i].1@))
}

/// The rows that carry a number, in their order.
pub open spec fn kept(rows: Seq<Row>) -> Seq<Lexeme>
    decreases rows.len(),
{
    if rows.len() == 0 {
        seq![]
    } else {
        let rest = kept(rows.drop_last());
        match rows.last().zipf {
            Some(z) => rest.push(Lexeme { word: rows.last().word@, zipf: z as int }),
            None => rest,
        }
    }
}

/// The order of a dictionary: by the first character that differs, a prefix first.
pub open spec fn before(a: Seq<char>, b: Seq<char>) -> bool
    decreases a.len(),
{
    if b.len() == 0 {
        false
    } else if a.len() == 0 {
        true
    } else {
        a[0] < b[0] || (a[0] == b[0] && before(a.skip(1), b.skip(1)))
    }
}

/// Every word stands before the words that follow it.
pub open spec fn sorted(dict: Seq<Lexeme>) -> bool {
    forall|i: int, j: int|
        0 <= i < j < dict.len() ==> before(#[trigger] dict[i].word, #[trigger] dict[j].word)
}

/// The dictionary holds `token` at `i`.
pub open spec fn holds(dict: Seq<Lexeme>, token: Seq<char>, i: int) -> bool {
    0 <= i < dict.len() && dict[i].word == token
}

/// How common `token` is: its entry's figure, or 0 where the dictionary lacks it.
pub open spec fn zipf_of(dict: Seq<Lexeme>, token: Seq<char>) -> int {
    if exists|i: int| holds(dict, token, i) {
        dict[choose|i: int| holds(dict, token, i)].zipf
    } else {
        0
    }
}

proof fn lemma_upto_is(s: Seq<char>, c: char, n: int)
    requires
        0 <= n <= s.len(),
        forall|i: int| 0 <= i < n ==> #[trigger] s[i] != c,
        n < s.len() ==> s[n] == c,
    ensures
        upto(s, c) == n,
    decreases n,
{
    if n > 0 {
        let t = s.skip(1);
        assert(s[0] != c);
        assert forall|i: int| 0 <= i < n - 1 implies #[trigger] t[i] != c by {
            assert(t[i] == s[i + 1]);
        }
        lemma_upto_is(t, c, n - 1);
    }
}

proof fn lemma_before_irreflexive(a: Seq<char>)
    ensures
        !before(a, a),
    decreases a.len(),
{
    if a.len() > 0 {
        lemma_before_irreflexive(a.skip(1));
    }
}

proof fn lemma_before_transitive(a: Seq<char>, b: Seq<char>, c: Seq<char>)
    requires
        before(a, b),
        before(b, c),
    ensures
        before(a, c),
    decreases a.len(),
{
    if a.len() > 0 && a[0] == b[0] && b[0] == c[0] {
        lemma_before_transitive(a.skip(1), b.skip(1), c.skip(1));
    }
}

/// A sorted dictionary holds no word twice.
pub proof fn law_entries_are_distinct(dict: Seq<Lexeme>, token: Seq<char>, i: int, j: int)
    requires
        sorted(dict),
        holds(dict, token, i),
        holds(dict, token, j),
    ensures
        i == j,
{
    lemma_before_irreflexive(token);
    if i < j {
        assert(before(dict[i].word, dict[j].word));
    }
    if j < i {
        assert(before(dict[j].word, dict[i].word));
    }
}

/// In a sorted dictionary the figure of a word that it holds is that word's own.
pub proof fn law_zipf_of_entry(dict: Seq<Lexeme>, i: int)
    requires
        sorted(dict),
        0 <= i < dict.len(),
    ensures
        zipf_of(dict, dict[i].word) == dict[i].zipf,
{
    let token = dict[i].word;
    assert(holds(dict, token, i));
    law_entries_are_distinct(dict, token, i, choose|k: int| holds(dict, token, k));
}

/// The position of the first `c` from `from` on; the length where there is none.
fn find_from(chars: &[char], c: char, from: usize) -> (r: usize)
    requires
        from <= chars@.len(),
    ensures
        from <= r <= chars@.len(),
        r - from == upto(chars@.skip(from as int), c),
        r < chars@.len() ==> chars@[r as int] == c,
{
    let mut i: usize = from;
    while i < chars.len() && chars[i] != c
        invariant
            from <= i <= chars@.len(),
            forall|k: int| from <= k < i ==> #[trigger] chars@[k] != c,
        ensures
            i < chars@.len() ==> chars@[i as int] == c,
        decreases chars@.len() - i,
    {
        i = i + 1;
    }
    proof {
        let s = chars@.skip(from as int);
        assert forall|k: int| 0 <= k < i - from implies #[trigger] s[k] != c by {
            assert(s[k] == chars@[from + k]);
        }
        if i < chars@.len() {
            assert(s[i - from] == chars@[i as int]);
        }
        lemma_upto_is(s, c, i - from);
    }
    i
}

/// The lines of a text.
pub fn split_lines(content: &str) -> (r: Vec<Vec<char>>)
    ensures
        text::views(r@) == lines(content@),
{
    let chars = text::chars_of(content);
    let mut out: Vec<Vec<char>> = Vec::new();
    let mut i: usize = 0;
    assert(chars@.skip(0) =~= chars@);
    assert(text::views(out@) + lines(chars@) =~= lines(chars@));
    while i < chars.len()
        invariant
            i <= chars@.len(),
            text::views(out@) + lines(chars@.skip(i as int)) == lines(chars@),
        decreases chars@.len() - i,
    {
        let ghost rest = chars@.skip(i as int);
        let ghost before_push = text::views(out@);
        let end: usize = find_from(chars.as_slice(), '\n', i);
        let ghost n = end - i;
        if end < chars.len() {
            let mut stop: usize = end;
            if stop > i && chars[stop - 1] == '\r' {
                stop = stop - 1;
            }
            let line = text::slice_of(chars.as_slice(), i, stop);
            proof {
                let whole = rest.take(n);
                if n > 0 {
                    assert(whole.last() == chars@[end - 1]);
                }
                assert(without_return(whole) =~= line@);
                assert(rest.skip(n + 1) =~= chars@.skip(end + 1));
                assert(text::views(out@.push(line)) =~= before_push.push(line@));
                assert(before_push.push(line@) + lines(chars@.skip(end + 1)) =~= before_push + (
                seq![line@] + lines(chars@.skip(end + 1))));
            }
            out.push(line);
            i = end + 1;
        } else {
            let line = text::slice_of(chars.as_slice(), i, end);
            proof {
                assert(line@ =~= rest);
                assert(lines(rest) =~= seq![rest]);
                assert(lines(chars@.skip(end as int)).len() == 0);
                assert(text::views(out@.push(line)) =~= before_push.push(line@));
                assert(before_push.push(line@) + lines(chars@.skip(end as int)) =~= before_push
                    + seq![line@]);
            }
            out.push(line);
            i = end;
        }
    }
    proof {
        assert(lines(chars@.skip(i as int)).len() == 0);
        assert(text::views(out@) + lines(chars@.skip(i as int)) =~= text::views(out@));
    }
    out
}

/// The two fields of each line of the dictionary's text form that has a tab.
pub fn dictionary_rows(content: &str) -> (r: Vec<(String, String)>)
    ensures
        pair_views(r@) == fields(lines(content@)),
{
    let ls = split_lines(content);
    let ghost all = text::views(ls@);
    let mut out: Vec<(String, String)> = Vec::new();
    assert(pair_views(out@) =~= fields(all.take(0)));
    for i in 0..ls.len()
        invariant
            all == text::views(ls@),
            pair_views(out@) == fields(all.take(i as int)),
    {
        let line: &Vec<char> = &ls[i];
        let tab: usize = find_from(line.as_slice(), '\t', 0);
        proof {
            assert(line@.skip(0) =~= line@);
            assert(all.take(i + 1).drop_last() =~= all.take(i as int));
            assert(all.take(i + 1).last() == line@);
        }
        if tab < line.len() {
            let first = text::slice_of(line.as_slice(), 0, tab);
            let second = text::slice_of(line.as_slice(), tab + 1, line.len());
            let pair = (text::text_of(first.as_slice()), text::text_of(second.as_slice()));
            proof {
                assert(first@ =~= line@.take(tab as int));
                assert(second@ =~= line@.skip(tab + 1));
                assert(pair_views(out@.push(pair)) =~= pair_views(out@).push((pair.0@, pair.1@)));
            }
            out.push(pair);
        }
    }
    assert(all.take(all.len() as int) =~= all);
    out
}

/// How two words stand to each other in the dictionary's order.
#[derive(Clone, Copy, PartialEq, Eq, Structural)]
pub enum Place {
    Before,
    Same,
    After,
}

/// Places `a` against `b`.
pub fn place(a: &[char], b: &[char]) -> (r: Place)
    ensures
        r == Place::Before <==> before(a@, b@),
        r == Place::Same <==> a@ == b@,
        r == Place::After <==> before(b@, a@),
{
    let mut i: usize = 0;
    proof {
        assert(a@.skip(0) =~= a@);
        assert(b@.skip(0) =~= b@);
        lemma_before_irreflexive(a@);
    }
    while i < a.len() && i < b.len() && a[i] == b[i]
        invariant
            i <= a@.len(),
            i <= b@.len(),
            forall|k: int| 0 <= k < i ==> a@[k] == b@[k],
            before(a@, b@) == before(a@.skip(i as int), b@.skip(i as int)),
            before(b@, a@) == before(b@.skip(i as int), a@.skip(i as int)),
        decreases a@.len() - i,
    {
        proof {
            assert(a@.skip(i as int).skip(1) =~= a@.skip(i + 1));
            assert(b@.skip(i as int).skip(1) =~= b@.skip(i + 1));
        }
        i = i + 1;
    }
    proof {
        if i == a@.len() && i == b@.len() {
            assert(a@ =~= b@);
        } else if a@ == b@ {
            assert(a@[i as int] == b@[i as int]);
        }
    }
    if i < a.len() {
        if i < b.len() {
            if a[i] < b[i] {
                Place::Before
            } else {
                Place::After
            }
        } else {
            Place::After
        }
    } else if i < b.len() {
        Place::Before
    } else {
        Place::Same
    }
}

/// An attested word with its characters at hand.
pub struct Entry {
    pub word: String,
    pub chars: Vec<char>,
    pub zipf: i64,
}

impl Entry {
    /// The word that the entry stands for.
    pub open spec fn lexeme(self) -> Lexeme {
        Lexeme { word: self.word@, zipf: self.zipf as int }
    }

    pub open spec fn wf(self) -> bool {
        self.chars@ == self.word@
    }
}

/// The words that the entries stand for.
pub open spec fn lexemes(entries: Seq<Entry>) -> Seq<Lexeme> {
    Seq::new(entries.len(), |i: int| entries[i].lexeme())
}

pub open spec fn entries_wf(entries: Seq<Entry>) -> bool {
    forall|i: int| 0 <= i < entries.len() ==> (#[trigger] entries[i]).wf()
}

/// The rows that carry a number, as entries.
pub fn entries_of(rows: Vec<Row>) -> (r: Vec<Entry>)
    ensures
        lexemes(r@) == kept(rows@),
        entries_wf(r@),
{
    let mut out: Vec<Entry> = Vec::new();
    assert(lexemes(out@) =~= kept(rows@.take(0)));
    for i in 0..rows.len()
        invariant
            lexemes(out@) == kept(rows@.take(i as int)),
            entries_wf(out@),
    {
        proof {
            assert(rows@.take(i + 1).drop_last() =~= rows@.take(i as int));
            assert(rows@.take(i + 1).last() == rows@[i as int]);
        }
        match rows[i].zipf {
            Some(zipf) => {
                let word = rows[i].word.clone();
                let chars = text::chars_of(word.as_str());
                let entry = Entry { word, chars, zipf };
                assert(lexemes(out@.push(entry)) =~= lexemes(out@).push(entry.lexeme()));
                out.push(entry);
            },
            None => {},
        }
    }
    assert(rows@.take(rows@.len() as int) =~= rows@);
    out
}

/// Whether every word stands before the words that follow it.
pub fn is_sorted(entries: &Vec<Entry>) -> (r: bool)
    requires
        entries_wf(entries@),
    ensures
        r == sorted(lexemes(entries@)),
{
    let ghost dict = lexemes(entries@);
    let mut i: usize = 1;
    while i < entries.len()
        invariant
            1 <= i,
            i <= entries@.len() || entries@.len() == 0,
            entries_wf(entries@),
            dict == lexemes(entries@),
            forall|a: int, b: int|
                0 <= a < b < i && b < dict.len() ==> before(
                    #[trigger] dict[a].word,
                    #[trigger] dict[b].word,
                ),
        decreases entries@.len() - i,
    {
        let p = place(entries[i - 1].chars.as_slice(), entries[i].chars.as_slice());
        proof {
            assert(entries@[i - 1].wf());
            assert(entries@[i as int].wf());
            assert(dict[i - 1].word == entries@[i - 1].chars@);
            assert(dict[i as int].word == entries@[i as int].chars@);
        }
        match p {
            Place::Before => {},
            _ => {
                assert(!before(dict[i - 1].word, dict[i as int].word));
                return false;
            },
        }
        proof {
            assert forall|a: int, b: int| 0 <= a < b < i + 1 && b < dict.len() implies before(
                #[trigger] dict[a].word,
                #[trigger] dict[b].word,
            ) by {
                if b == i && a < i - 1 {
                    lemma_before_transitive(dict[a].word, dict[i - 1].word, dict[b].word);
                }
            }
        }
        i = i + 1;
    }
    true
}

/// The index of `token`, by halving.
pub fn lookup(entries: &Vec<Entry>, token: &[char]) -> (r: Option<usize>)
    requires
        entries_wf(entries@),
        sorted(lexemes(entries@)),
    ensures
        match r {
            Some(i) => holds(lexemes(entries@), token@, i as int),
            None => forall|i: int| !holds(lexemes(entries@), token@, i),
        },
{
    let ghost dict = lexemes(entries@);
    let mut lo: usize = 0;
    let mut hi: usize = entries.len();
    while lo < hi
        invariant
            lo <= hi <= entries@.len(),
            entries_wf(entries@),
            dict == lexemes(entries@),
            sorted(dict),
            forall|i: int| #[trigger] holds(dict, token@, i) ==> lo <= i < hi,
        decreases hi - lo,
    {
        let mid: usize = lo + (hi - lo) / 2;
        let p = place(entries[mid].chars.as_slice(), token);
        proof {
            assert(entries@[mid as int].wf());
            assert(dict[mid as int].word == entries@[mid as int].chars@);
            assert forall|i: int| #[trigger] holds(dict, token@, i) implies (p == Place::Before
                ==> mid < i) && (p == Place::After ==> i < mid) by {
                if p == Place::Before && i <= mid {
                    if i < mid {
                        assert(before(dict[i].word, dict[mid as int].word));
                        lemma_before_transitive(dict[i].word, dict[mid as int].word, token@);
                    }
                    lemma_before_irreflexive(token@);
                }
                if p == Place::After && mid <= i {
                    if mid < i {
                        assert(before(dict[mid as int].word, dict[i].word));
                        lemma_before_transitive(token@, dict[mid as int].word, dict[i].word);
                    }
                    lemma_before_irreflexive(token@);
                }
            }
        }
        match p {
            Place::Same => {
                assert(holds(dict, token@, mid as int));
                return Some(mid);
            },
            Place::Before => {
                lo = mid + 1;
            },
            Place::After => {
                hi = mid;
            },
        }
    }
    None
}

/// The order is that of the first character that differs; where one word is the beginning of the
/// other, it comes first; and no word comes before itself.
pub proof fn law_first_difference_decides(a: Seq<char>, b: Seq<char>, k: int)
    requires
        0 <= k <= a.len(),
        k < b.len(),
        forall|i: int| 0 <= i < k ==> #[trigger] a[i] == b[i],
        k < a.len() ==> a[k] < b[k],
    ensures
        before(a, b),
        !before(b, a),
        !before(a, a),
    decreases k,
{
    lemma_before_irreflexive(a);
    if k > 0 {
        assert(a[0] == b[0]);
        let (x, y) = (a.skip(1), b.skip(1));
        assert forall|i: int| 0 <= i < k - 1 implies #[trigger] x[i] == y[i] by {
            assert(a[i + 1] == b[i + 1]);
        }
        law_first_difference_decides(x, y, k - 1);
    }
}

/// A dictionary is in order exactly where each word comes before the next one.
pub proof fn law_sorted_is_neighbour_by_neighbour(dict: Seq<Lexeme>)
    ensures
        sorted(dict) <==> forall|i: int|
            0 <= i < dict.len() - 1 ==> before(#[trigger] dict[i].word, dict[i + 1].word),
{
    if forall|i: int|
        0 <= i < dict.len() - 1 ==> before(#[trigger] dict[i].word, dict[i + 1].word) {
        assert forall|i: int, j: int| 0 <= i < j < dict.len() implies before(
            #[trigger] dict[i].word,
            #[trigger] dict[j].word,
        ) by {
            lemma_neighbours(dict, i, j);
        }
    }
}

proof fn lemma_neighbours(dict: Seq<Lexeme>, i: int, j: int)
    requires
        0 <= i < j < dict.len(),
        forall|k: int|
            0 <= k < dict.len() - 1 ==> before(#[trigger] dict[k].word, dict[k + 1].word),
    ensures
        before(dict[i].word, dict[j].word),
    decreases j - i,
{
    assert(before(dict[j - 1].word, dict[j - 1 + 1].word));
    if i < j - 1 {
        lemma_neighbours(dict, i, j - 1);
        lemma_before_transitive(dict[i].word, dict[j - 1].word, dict[j].word);
    }
}

/// A row that carries a number is in the dictionary with its word and its number, between the rows
/// before it and those after it; one that carries none is not.
pub proof fn law_every_numbered_row_is_kept(above: Seq<Row>, row: Row, below: Seq<Row>)
    ensures
        kept(above + seq![row] + below) == kept(above) + (match row.zipf {
            Some(z) => seq![Lexeme { word: row.word@, zipf: z as int }],
            None => seq![],
        }) + kept(below),
        kept(Seq::<Row>::empty()) == Seq::<Lexeme>::empty(),
    decreases below.len(),
{
    let head = above + seq![row];
    let one = match row.zipf {
        Some(z) => seq![Lexeme { word: row.word@, zipf: z as int }],
        None => seq![],
    };
    if below.len() == 0 {
        assert(head + below =~= head);
        assert(head.drop_last() =~= above);
        assert(kept(head + below) =~= kept(above) + one + kept(below));
    } else {
        let fewer = below.drop_last();
        law_every_numbered_row_is_kept(above, row, fewer);
        assert((head + below).drop_last() =~= head + fewer);
        assert((head + below).last() == below.last());
        assert(kept(head + below) =~= kept(above) + one + kept(below));
    }
}

/// A line ends at its newline, and a carriage return before that belongs to the ending; the last
/// line needs none; and nothing has no lines.
pub proof fn law_lines_end_at_newlines(line: Seq<char>, rest: Seq<char>)
    requires
        forall|i: int| 0 <= i < line.len() ==> #[trigger] line[i] != '\n',
    ensures
        line.len() > 0 && line.last() == '\r' ==> lines(line + seq!['\n'] + rest) == seq![
            line.take(line.len() - 1),
        ] + lines(rest),
        line.len() == 0 || line.last() != '\r' ==> lines(line + seq!['\n'] + rest) == seq![line]
            + lines(rest),
        line.len() > 0 ==> lines(line) == seq![line],
        lines(Seq::<char>::empty()) == Seq::<Seq<char>>::empty(),
{
    let s = line + seq!['\n'] + rest;
    let n = line.len() as int;
    assert forall|i: int| 0 <= i < n implies #[trigger] s[i] != '\n' by {
        assert(s[i] == line[i]);
    }
    lemma_upto_is(s, '\n', n);
    assert(s.take(n) =~= line);
    assert(s.skip(n + 1) =~= rest);
    lemma_upto_is(line, '\n', n);
    if n > 0 {
        assert(line.drop_last() =~= line.take(n - 1));
    }
}

/// A line with a tab is a row: what stands before the first tab, and all that follows it. A line
/// without one is none. Rows come in the order of their lines.
pub proof fn law_rows_are_lines_with_a_tab(
    above: Seq<Seq<char>>,
    word: Seq<char>,
    figure: Seq<char>,
    below: Seq<Seq<char>>,
)
    requires
        forall|i: int| 0 <= i < word.len() ==> #[trigger] word[i] != '\t',
    ensures
        fields(above + seq![word + seq!['\t'] + figure] + below) == fields(above) + seq![
            (word, figure),
        ] + fields(below),
        fields(above + seq![word] + below) == fields(above) + fields(below),
        fields(Seq::<Seq<char>>::empty()) == Seq::<(Seq<char>, Seq<char>)>::empty(),
    decreases below.len(),
{
    let line = word + seq!['\t'] + figure;
    let head = above + seq![line];
    let bare = above + seq![word];
    if below.len() == 0 {
        let n = word.len() as int;
        assert forall|i: int| 0 <= i < n implies #[trigger] line[i] != '\t' by {
            assert(line[i] == word[i]);
        }
        lemma_upto_is(line, '\t', n);
        lemma_upto_is(word, '\t', n);
        assert(line.take(n) =~= word);
        assert(line.skip(n + 1) =~= figure);
        assert(head + below =~= head);
        assert(bare + below =~= bare);
        assert(head.drop_last() =~= above);
        assert(bare.drop_last() =~= above);
        assert(fields(head + below) =~= fields(above) + seq![(word, figure)] + fields(below));
        assert(fields(bare + below) =~= fields(above) + fields(below));
    } else {
        let fewer = below.drop_last();
        law_rows_are_lines_with_a_tab(above, word, figure, fewer);
        assert((head + below).drop_last() =~= head + fewer);
        assert((head + below).last() == below.last());
        assert((bare + below).drop_last() =~= bare + fewer);
        assert((bare + below).last() == below.last());
        assert(fields(head + below) =~= fields(above) + seq![(word, figure)] + fields(below));
        assert(fields(bare + below) =~= fields(above) + fields(below));
    }
}

/// Entries stand for their words and figures, one by one, and rows for their two fields.
pub proof fn law_entries_stand_for_their_words(
    entries: Seq<Entry>,
    rows: Seq<(String, String)>,
    i: int,
)
    requires
        0 <= i < entries.len(),
        0 <= i < rows.len(),
    ensures
        lexemes(entries).len() == entries.len(),
        lexemes(entries)[i].word == entries[i].word@,
        lexemes(entries)[i].zipf == entries[i].zipf,
        pair_views(rows).len() == rows.len(),
        pair_views(rows)[i] == (rows[i].0@, rows[i].1@),
{
}

} // verus!
