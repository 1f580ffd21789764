//! Edit distance between two character sequences, with a cutoff.

use crate::text;
use vstd::prelude::*;

verus! {

/// 0 where the two are the same, 1 where they differ.
pub open spec fn differ<T>(x: T, y: T) -> nat {
    if x == y {
        0
    } else {
        1
    }
}

pub open spec fn min(x: nat, y: nat) -> nat {
    if x <= y {
        x
    } else {
        y
    }
}

/// The Levenshtein distance: a last element is either paired with the other's last (at no cost
/// where they agree), or taken out of `a`, or put in from `b`.
pub open spec fn edit_distance<T>(a: Seq<T>, b: Seq<T>) -> nat
    decreases a.len(), b.len(),
{
    if a.len() == 0 {
        b.len()
    } else if b.len() == 0 {
        a.len()
    } else {
        min(
            edit_distance(a.drop_last(), b.drop_last()) + differ(a.last(), b.last()),
            min(edit_distance(a.drop_last(), b) + 1, edit_distance(a, b.drop_last()) + 1),
        )
    }
}

/// `b` is `a` with one element put in, taken out or replaced.
pub open spec fn one_edit<T>(a: Seq<T>, b: Seq<T>) -> bool {
    ||| exists|i: int, x: T| 0 <= i <= a.len() && b == #[trigger] a.insert(i, x)
    ||| exists|i: int| 0 <= i < a.len() && b == #[trigger] a.remove(i)
    ||| exists|i: int, x: T| 0 <= i < a.len() && b == #[trigger] a.update(i, x)
}

/// `a` can be turned into `b` by exactly `n` single edits.
pub open spec fn reachable<T>(a: Seq<T>, b: Seq<T>, n: nat) -> bool
    decreases n,
{
    if n == 0 {
        a == b
    } else {
        exists|m: Seq<T>| #[trigger] one_edit(a, m) && reachable(m, b, (n - 1) as nat)
    }
}

/// The distance is never below the difference of the lengths, nor above the longer length.
pub proof fn law_distance_bounds<T>(a: Seq<T>, b: Seq<T>)
    ensures
        a.len() <= b.len() + edit_distance(a, b),
        b.len() <= a.len() + edit_distance(a, b),
        edit_distance(a, b) <= a.len() || edit_distance(a, b) <= b.len(),
    decreases a.len(), b.len(),
{
    if a.len() > 0 && b.len() > 0 {
        law_distance_bounds(a.drop_last(), b.drop_last());
        law_distance_bounds(a.drop_last(), b);
        law_distance_bounds(a, b.drop_last());
    }
}

/// The distance is the same either way round.
pub proof fn law_distance_symmetric<T>(a: Seq<T>, b: Seq<T>)
    ensures
        edit_distance(a, b) == edit_distance(b, a),
    decreases a.len(), b.len(),
{
    if a.len() > 0 && b.len() > 0 {
        law_distance_symmetric(a.drop_last(), b.drop_last());
        law_distance_symmetric(a.drop_last(), b);
        law_distance_symmetric(a, b.drop_last());
    }
}

/// The distance is zero exactly between equal sequences.
pub proof fn law_distance_zero<T>(a: Seq<T>, b: Seq<T>)
    ensures
        edit_distance(a, b) == 0 <==> a == b,
    decreases a.len(),
{
    if a.len() == 0 || b.len() == 0 {
        if edit_distance(a, b) == 0 {
            assert(a =~= b);
        }
    } else {
        law_distance_zero(a.drop_last(), b.drop_last());
        if edit_distance(a, b) == 0 {
            assert(a =~= a.drop_last().push(a.last()));
            assert(b =~= b.drop_last().push(b.last()));
        }
    }
}

/// Going by way of a third sequence is never shorter.
pub proof fn law_distance_triangle<T>(a: Seq<T>, b: Seq<T>, c: Seq<T>)
    ensures
        edit_distance(a, c) <= edit_distance(a, b) + edit_distance(b, c),
    decreases a.len() + b.len() + c.len(),
{
    law_distance_bounds(a, b);
    law_distance_bounds(b, c);
    law_distance_bounds(a, c);
    if a.len() > 0 && b.len() > 0 && c.len() > 0 {
        let (a1, b1, c1) = (a.drop_last(), b.drop_last(), c.drop_last());
        law_distance_triangle(a1, b, c);
        law_distance_triangle(a, b, c1);
        law_distance_triangle(a, b1, c);
        law_distance_triangle(a, b1, c1);
        law_distance_triangle(a1, b1, c);
        law_distance_triangle(a1, b1, c1);
    }
}

/// One more element at the end of either costs one edit at most, and one at the end of both costs
/// nothing where they agree.
proof fn lemma_push_both<T>(a: Seq<T>, b: Seq<T>, x: T, y: T)
    ensures
        edit_distance(a.push(x), b.push(y)) <= edit_distance(a, b) + differ(x, y),
        edit_distance(a.push(x), b) <= edit_distance(a, b) + 1,
        edit_distance(a, b.push(y)) <= edit_distance(a, b) + 1,
{
    assert(a.push(x).drop_last() =~= a);
    assert(b.push(y).drop_last() =~= b);
    law_distance_bounds(a, b);
}

/// A common tail adds nothing to the distance.
proof fn lemma_common_tail<T>(a: Seq<T>, b: Seq<T>, tail: Seq<T>)
    ensures
        edit_distance(a + tail, b + tail) <= edit_distance(a, b),
    decreases tail.len(),
{
    if tail.len() == 0 {
        assert(a + tail =~= a);
        assert(b + tail =~= b);
    } else {
        let t = tail.drop_last();
        lemma_common_tail(a, b, t);
        lemma_push_both(a + t, b + t, tail.last(), tail.last());
        assert(a + tail =~= (a + t).push(tail.last()));
        assert(b + tail =~= (b + t).push(tail.last()));
    }
}

/// One edit moves a sequence by a distance of at most one.
pub proof fn law_one_edit<T>(a: Seq<T>, b: Seq<T>)
    requires
        one_edit(a, b),
    ensures
        edit_distance(a, b) <= 1,
{
    if exists|i: int, x: T| 0 <= i <= a.len() && b == #[trigger] a.insert(i, x) {
        let (i, x) = choose|i: int, x: T| 0 <= i <= a.len() && b == #[trigger] a.insert(i, x);
        let (h, t) = (a.take(i), a.skip(i));
        law_distance_zero(h, h);
        lemma_push_both(h, h, x, x);
        lemma_common_tail(h, h.push(x), t);
        assert(a =~= h + t);
        assert(b =~= h.push(x) + t);
    } else if exists|i: int| 0 <= i < a.len() && b == #[trigger] a.remove(i) {
        let i = choose|i: int| 0 <= i < a.len() && b == #[trigger] a.remove(i);
        let (h, t) = (a.take(i), a.skip(i + 1));
        law_distance_zero(h, h);
        lemma_push_both(h, h, a[i], a[i]);
        lemma_common_tail(h.push(a[i]), h, t);
        assert(a =~= h.push(a[i]) + t);
        assert(b =~= h + t);
    } else {
        let (i, x) = choose|i: int, x: T| 0 <= i < a.len() && b == #[trigger] a.update(i, x);
        let (h, t) = (a.take(i), a.skip(i + 1));
        law_distance_zero(h, h);
        lemma_push_both(h, h, a[i], x);
        lemma_common_tail(h.push(a[i]), h.push(x), t);
        assert(a =~= h.push(a[i]) + t);
        assert(b =~= h.push(x) + t);
    }
}

/// No sequence of edits is shorter than the distance.
pub proof fn law_distance_is_least<T>(a: Seq<T>, b: Seq<T>, n: nat)
    requires
        reachable(a, b, n),
    ensures
        edit_distance(a, b) <= n,
    decreases n,
{
    if n == 0 {
        law_distance_zero(a, b);
    } else {
        let m = choose|m: Seq<T>|
            #[trigger] one_edit(a, m) && reachable(m, b, (n - 1) as nat);
        law_distance_is_least(m, b, (n - 1) as nat);
        law_one_edit(a, m);
        law_distance_triangle(a, m, b);
    }
}

proof fn lemma_one_edit_push<T>(a: Seq<T>, b: Seq<T>, x: T)
    requires
        one_edit(a, b),
    ensures
        one_edit(a.push(x), b.push(x)),
{
    if exists|i: int, y: T| 0 <= i <= a.len() && b == #[trigger] a.insert(i, y) {
        let (i, y) = choose|i: int, y: T| 0 <= i <= a.len() && b == #[trigger] a.insert(i, y);
        assert(b.push(x) =~= a.push(x).insert(i, y));
    } else if exists|i: int| 0 <= i < a.len() && b == #[trigger] a.remove(i) {
        let i = choose|i: int| 0 <= i < a.len() && b == #[trigger] a.remove(i);
        assert(b.push(x) =~= a.push(x).remove(i));
    } else {
        let (i, y) = choose|i: int, y: T| 0 <= i < a.len() && b == #[trigger] a.update(i, y);
        assert(b.push(x) =~= a.push(x).update(i, y));
    }
}

proof fn lemma_reachable_push<T>(a: Seq<T>, b: Seq<T>, x: T, n: nat)
    requires
        reachable(a, b, n),
    ensures
        reachable(a.push(x), b.push(x), n),
    decreases n,
{
    if n > 0 {
        let m = choose|m: Seq<T>|
            #[trigger] one_edit(a, m) && reachable(m, b, (n - 1) as nat);
        lemma_one_edit_push(a, m, x);
        lemma_reachable_push(m, b, x, (n - 1) as nat);
        assert(one_edit(a.push(x), m.push(x)) && reachable(
            m.push(x),
            b.push(x),
            (n - 1) as nat,
        ));
    }
}

/// One edit first, then the rest.
proof fn lemma_reachable_step<T>(a: Seq<T>, m: Seq<T>, b: Seq<T>, n: nat)
    requires
        one_edit(a, m),
        reachable(m, b, n),
    ensures
        reachable(a, b, n + 1),
{
    assert(reachable(m, b, ((n + 1) - 1) as nat));
}

/// As many edits as the distance are enough.
pub proof fn law_distance_is_reached<T>(a: Seq<T>, b: Seq<T>)
    ensures
        reachable(a, b, edit_distance(a, b)),
    decreases a.len(), b.len(),
{
    if a.len() == 0 && b.len() == 0 {
        assert(a =~= b);
    } else if a.len() == 0 {
        // put in the elements of `b`, the last one first
        let b1 = b.drop_last();
        law_distance_is_reached(a, b1);
        lemma_reachable_push(a, b1, b.last(), edit_distance(a, b1));
        assert(b1.push(b.last()) =~= b);
        assert(a.push(b.last()) =~= a.insert(a.len() as int, b.last()));
        lemma_reachable_step(a, a.push(b.last()), b, edit_distance(a, b1));
    } else if b.len() == 0 {
        let a1 = a.drop_last();
        law_distance_is_reached(a1, b);
        assert(a1 =~= a.remove(a.len() - 1));
        assert(edit_distance(a1, b) == a1.len()) by {
            law_distance_bounds(a1, b);
        }
        lemma_reachable_step(a, a1, b, edit_distance(a1, b));
    } else {
        let (a1, b1, x, y) = (a.drop_last(), b.drop_last(), a.last(), b.last());
        assert(a1.push(x) =~= a);
        assert(b1.push(y) =~= b);
        let paired = edit_distance(a1, b1);
        if edit_distance(a, b) == paired + differ(x, y) {
            law_distance_is_reached(a1, b1);
            lemma_reachable_push(a1, b1, y, paired);
            if x != y {
                assert(a1.push(y) =~= a.update(a.len() - 1, y));
                lemma_reachable_step(a, a1.push(y), b, paired);
            }
        } else if edit_distance(a, b) == edit_distance(a1, b) + 1 {
            law_distance_is_reached(a1, b);
            assert(a1 =~= a.remove(a.len() - 1));
            lemma_reachable_step(a, a1, b, edit_distance(a1, b));
        } else {
            law_distance_is_reached(a, b1);
            lemma_reachable_push(a, b1, y, edit_distance(a, b1));
            assert(a.push(y) =~= a.insert(a.len() as int, y));
            lemma_reachable_step(a, a.push(y), b, edit_distance(a, b1));
        }
    }
}

/// The distance between the first `i` of `a` and the first `j` of `b`.
pub open spec fn cell(a: Seq<char>, b: Seq<char>, i: int, j: int) -> nat {
    edit_distance(a.take(i), b.take(j))
}

proof fn lemma_cell(a: Seq<char>, b: Seq<char>, i: int, j: int)
    requires
        0 <= i <= a.len(),
        0 <= j <= b.len(),
    ensures
        cell(a, b, 0, j) == j,
        cell(a, b, i, 0) == i,
        cell(a, b, i, j) <= i || cell(a, b, i, j) <= j,
        0 < i && 0 < j ==> cell(a, b, i, j) == min(
            cell(a, b, i - 1, j - 1) + differ(a[i - 1], b[j - 1]),
            min(cell(a, b, i - 1, j) + 1, cell(a, b, i, j - 1) + 1),
        ),
{
    law_distance_bounds(a.take(i), b.take(j));
    law_distance_bounds(a.take(i), b.take(0));
    law_distance_bounds(a.take(0), b.take(j));
    if 0 < i && 0 < j {
        assert(a.take(i).drop_last() =~= a.take(i - 1));
        assert(b.take(j).drop_last() =~= b.take(j - 1));
    }
}

/// Once a whole row of cells is over the cutoff, so is every later row.
proof fn lemma_row_over(a: Seq<char>, b: Seq<char>, i: int, to: int, max: nat)
    requires
        0 <= i <= to <= a.len(),
        forall|j: int| 0 <= j <= b.len() ==> #[trigger] cell(a, b, i, j) > max,
    ensures
        forall|j: int| 0 <= j <= b.len() ==> #[trigger] cell(a, b, to, j) > max,
    decreases to - i,
{
    if i < to {
        assert forall|j: int| 0 <= j <= b.len() implies #[trigger] cell(a, b, i + 1, j) > max by {
            lemma_row_over_at(a, b, i, j, max);
        }
        lemma_row_over(a, b, i + 1, to, max);
    }
}

proof fn lemma_row_over_at(a: Seq<char>, b: Seq<char>, i: int, j: int, max: nat)
    requires
        0 <= i < a.len(),
        0 <= j <= b.len(),
        forall|k: int| 0 <= k <= b.len() ==> #[trigger] cell(a, b, i, k) > max,
    ensures
        cell(a, b, i + 1, j) > max,
    decreases j,
{
    lemma_cell(a, b, i + 1, j);
    lemma_cell(a, b, i, 0);
    assert(cell(a, b, i, 0) > max);
    if j > 0 {
        lemma_row_over_at(a, b, i, j - 1, max);
        assert(cell(a, b, i, j) > max);
        assert(cell(a, b, i, j - 1) > max);
    }
}

/// What a distance with the cutoff `max` is: the distance, or nothing where it exceeds `max`.
pub open spec fn within(a: Seq<char>, b: Seq<char>, max: nat) -> Option<nat> {
    if edit_distance(a, b) <= max {
        Some(edit_distance(a, b))
    } else {
        None
    }
}

/// The edit distance of two character sequences, or `None` where it exceeds `max`.
///
/// Two rows of cells, given up as soon as every cell of a row is over the cutoff.
pub fn distance_within(a: &[char], b: &[char], max: usize) -> (r: Option<usize>)
    ensures
        r.is_some() == within(a@, b@, max as nat).is_some(),
        r.is_some() ==> r.unwrap() == edit_distance(a@, b@),
{
    proof {
        law_distance_bounds(a@, b@);
    }
    if a.len() > b.len() {
        if a.len() - b.len() > max {
            return None;
        }
    } else if b.len() - a.len() > max {
        return None;
    }
    let mut prev: Vec<usize> = Vec::new();
    let mut fill: usize = 0;
    while fill < b.len()
        invariant
            fill <= b@.len(),
            prev@.len() == fill,
            forall|j: int| 0 <= j < fill ==> prev@[j] == cell(a@, b@, 0, j),
        decreases b@.len() - fill,
    {
        proof {
            lemma_cell(a@, b@, 0, fill as int);
        }
        prev.push(fill);
        fill = fill + 1;
    }
    proof {
        lemma_cell(a@, b@, 0, fill as int);
    }
    prev.push(fill);
    let mut i: usize = 0;
    while i < a.len()
        invariant
            i <= a@.len(),
            prev@.len() == b@.len() + 1,
            forall|j: int| 0 <= j <= b@.len() ==> prev@[j] == cell(a@, b@, i as int, j),
        decreases a@.len() - i,
    {
        let mut cur: Vec<usize> = Vec::new();
        proof {
            lemma_cell(a@, b@, i + 1, 0);
        }
        cur.push(i + 1);
        let mut row_min: usize = i + 1;
        let mut j: usize = 0;
        while j < b.len()
            invariant
                i < a@.len(),
                j <= b@.len(),
                prev@.len() == b@.len() + 1,
                cur@.len() == j + 1,
                forall|k: int| 0 <= k <= b@.len() ==> prev@[k] == cell(a@, b@, i as int, k),
                forall|k: int| 0 <= k <= j ==> cur@[k] == cell(a@, b@, i + 1, k),
                forall|k: int| 0 <= k <= j ==> row_min <= cur@[k],
            decreases b@.len() - j,
        {
            proof {
                lemma_cell(a@, b@, i + 1, j + 1);
                lemma_cell(a@, b@, i as int, j as int);
            }
            let sub: usize = if a[i] == b[j] {
                prev[j]
            } else {
                prev[j] + 1
            };
            let up: usize = prev[j + 1];
            let left: usize = cur[j];
            let best: usize = if up < left {
                up
            } else {
                left
            };
            let here: usize = if best < sub {
                best + 1
            } else {
                sub
            };
            cur.push(here);
            if here < row_min {
                row_min = here;
            }
            j = j + 1;
        }
        if row_min > max {
            proof {
                assert forall|k: int| 0 <= k <= b@.len() implies #[trigger] cell(
                    a@,
                    b@,
                    i + 1,
                    k,
                ) > max by {
                    assert(cur@[k] == cell(a@, b@, i + 1, k));
                }
                lemma_row_over(a@, b@, i + 1, a@.len() as int, max as nat);
                assert(cell(a@, b@, a@.len() as int, b@.len() as int) > max);
                assert(a@.take(a@.len() as int) =~= a@);
                assert(b@.take(b@.len() as int) =~= b@);
            }
            return None;
        }
        prev = cur;
        i = i + 1;
    }
    proof {
        assert(a@.take(a@.len() as int) =~= a@);
        assert(b@.take(b@.len() as int) =~= b@);
        assert(prev@[b@.len() as int] == cell(a@, b@, i as int, b@.len() as int));
    }
    let d: usize = prev[b.len()];
    if d <= max {
        Some(d)
    } else {
        None
    }
}

/// The Levenshtein distance of two texts, or `None` where it exceeds `max`.
pub fn levenshtein_within(a: &str, b: &str, max: usize) -> (r: Option<usize>)
    ensures
        r.is_some() == within(a@, b@, max as nat).is_some(),
        r.is_some() ==> r.unwrap() == edit_distance(a@, b@),
{
    let a = text::chars_of(a);
    let b = text::chars_of(b);
    distance_within(a.as_slice(), b.as_slice(), max)
}

/// A distance is found exactly where it is within the cutoff.
pub proof fn law_cutoff_is_exact(a: Seq<char>, b: Seq<char>, max: nat)
    ensures
        edit_distance(a, b) <= max ==> within(a, b, max) == Some(edit_distance(a, b)),
        edit_distance(a, b) > max ==> within(a, b, max).is_none(),
{
}

} // verus!
