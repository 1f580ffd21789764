//! Whole numbers in decimal.

use crate::text;
use vstd::prelude::*;

verus! {

/// The character of one decimal digit.
pub open spec fn digit(d: nat) -> char {
    (48 + d) as char
}

/// A number in decimal, without leading zeros.
pub open spec fn decimal(n: nat) -> Seq<char>
    decreases n,
{
    if n < 10 {
        seq![digit(n)]
    } else {
        decimal(n / 10).push(digit(n % 10))
    }
}

pub open spec fn is_digit(c: char) -> bool {
    '0' <= c && c <= '9'
}

/// The value of a run of digits.
pub open spec fn value(s: Seq<char>) -> nat
    decreases s.len(),
{
    if s.len() == 0 {
        0
    } else {
        value(s.drop_last()) * 10 + (s.last() as u32 - 48) as nat
    }
}

pub open spec fn all_digits(s: Seq<char>) -> bool {
    forall|i: int| 0 <= i < s.len() ==> is_digit(#[trigger] s[i])
}

/// A text without a plus sign in front.
pub open spec fn unsigned(s: Seq<char>) -> Seq<char> {
    if s.len() > 0 && s[0] == '+' {
        s.skip(1)
    } else {
        s
    }
}

/// What a text says as an unsigned number up to `max`: an optional plus sign, then at least one
/// digit and nothing else.
pub open spec fn parsed(s: Seq<char>, max: nat) -> Option<nat> {
    let d = unsigned(s);
    if d.len() > 0 && all_digits(d) && value(d) <= max {
        Some(value(d))
    } else {
        None
    }
}

proof fn lemma_value_grows(s: Seq<char>, n: int)
    requires
        0 <= n <= s.len(),
        all_digits(s),
    ensures
        value(s.take(n)) <= value(s),
    decreases s.len() - n,
{
    if n < s.len() {
        let t = s.take(n + 1);
        assert(t.drop_last() =~= s.take(n));
        assert(is_digit(s[n]));
        lemma_value_grows(s, n + 1);
    } else {
        assert(s.take(n) =~= s);
    }
}

/// Printing a number and reading it back gives the number.
pub proof fn law_decimal_reads_back(n: nat, max: nat)
    requires
        n <= max,
    ensures
        parsed(decimal(n), max) == Some(n),
{
    lemma_decimal(n);
    assert(is_digit(decimal(n)[0]));
}

proof fn lemma_decimal(n: nat)
    ensures
        decimal(n).len() > 0,
        all_digits(decimal(n)),
        value(decimal(n)) == n,
    decreases n,
{
    if n < 10 {
        let s = decimal(n);
        assert(s.drop_last() =~= seq![]);
        assert(value(s.drop_last()) == 0);
        assert(s.last() == digit(n));
    } else {
        lemma_decimal(n / 10);
        let s = decimal(n);
        assert(s.drop_last() =~= decimal(n / 10));
        assert forall|i: int| 0 <= i < s.len() implies is_digit(#[trigger] s[i]) by {
            if i < s.len() - 1 {
                assert(s[i] == decimal(n / 10)[i]);
            }
        }
    }
}

/// The character of a digit below ten.
fn digit_char(d: u64) -> (r: char)
    requires
        d < 10,
    ensures
        r == digit(d as nat),
{
    (48u8 + d as u8) as char
}

/// A number in decimal.
pub fn to_decimal(n: u64) -> (r: String)
    ensures
        r@ == decimal(n as nat),
    decreases n,
{
    let mut out = String::new();
    if n >= 10 {
        out = to_decimal(n / 10);
    }
    out.push(digit_char(n % 10));
    assert(out@ =~= decimal(n as nat));
    out
}

/// What a text says as an unsigned number of 64 bits.
pub fn parse_u64(s: &str) -> (r: Option<u64>)
    ensures
        r.is_some() == parsed(s@, u64::MAX as nat).is_some(),
        r.is_some() ==> r.unwrap() == parsed(s@, u64::MAX as nat).unwrap(),
{
    let chars = text::chars_of(s);
    let mut start: usize = 0;
    if chars.len() > 0 && chars[0] == '+' {
        start = 1;
    }
    let ghost d = unsigned(s@);
    assert(d =~= chars@.skip(start as int));
    if start >= chars.len() {
        return None;
    }
    let mut n: u64 = 0;
    let mut i: usize = start;
    assert(d.take(0) =~= seq![]);
    while i < chars.len()
        invariant
            start <= i <= chars@.len(),
            d == chars@.skip(start as int),
            all_digits(d.take(i - start)),
            n == value(d.take(i - start)),
            d == unsigned(s@),
            d.len() > 0,
        decreases chars@.len() - i,
    {
        let c: char = chars[i];
        let ghost k = i - start;
        assert(d[k] == c);
        if c < '0' || '9' < c {
            assert(!is_digit(d[k]));
            return None;
        }
        proof {
            let t = d.take(k + 1);
            assert(t.drop_last() =~= d.take(k));
            assert(t.last() == c);
            assert forall|j: int| 0 <= j < t.len() implies is_digit(#[trigger] t[j]) by {
                if j < k {
                    assert(t[j] == d.take(k)[j]);
                }
            }
            if all_digits(d) {
                lemma_value_grows(d, k + 1);
            }
        }
        let add: u64 = (c as u32 - 48) as u64;
        match n.checked_mul(10) {
            Some(m) => match m.checked_add(add) {
                Some(v) => {
                    n = v;
                },
                None => {
                    return None;
                },
            },
            None => {
                return None;
            },
        }
        i = i + 1;
    }
    assert(d.take(d.len() as int) =~= d);
    Some(n)
}

/// What a text says as an unsigned number of the machine's width.
pub fn parse_usize(s: &str) -> (r: Option<usize>)
    ensures
        r.is_some() == parsed(s@, usize::MAX as nat).is_some(),
        r.is_some() ==> r.unwrap() == parsed(s@, usize::MAX as nat).unwrap(),
{
    match parse_u64(s) {
        Some(n) => {
            if n <= usize::MAX as u64 {
                Some(n as usize)
            } else {
                None
            }
        },
        None => None,
    }
}

/// What digits say: each further digit is worth a tenth of the one before it.
pub proof fn law_digits_are_places(s: Seq<char>, d: nat)
    requires
        d < 10,
    ensures
        value(Seq::<char>::empty()) == 0,
        value(s.push((48 + d) as char)) == 10 * value(s) + d,
{
    let t = s.push((48 + d) as char);
    assert(t.drop_last() =~= s);
}

/// A number is printed the one way: as the digits without a leading zero that say it.
pub proof fn law_one_way_to_print(s: Seq<char>)
    requires
        s.len() > 0,
        forall|i: int| 0 <= i < s.len() ==> '0' <= #[trigger] s[i] <= '9',
        s.len() > 1 ==> s[0] != '0',
    ensures
        decimal(value(s)) == s,
    decreases s.len(),
{
    let rest = s.drop_last();
    let d = (s.last() as u32 - 48) as nat;
    assert('0' <= s[s.len() - 1] <= '9');
    if s.len() == 1 {
        assert(rest =~= Seq::<char>::empty());
        assert(value(rest) == 0);
        assert(decimal(value(s)) =~= s);
    } else {
        assert forall|i: int| 0 <= i < rest.len() implies '0' <= #[trigger] rest[i] <= '9' by {
            assert(rest[i] == s[i]);
        }
        law_one_way_to_print(rest);
        lemma_leading(rest);
        assert(value(s) == 10 * value(rest) + d);
        assert(value(s) / 10 == value(rest) && value(s) % 10 == d);
        assert(decimal(value(s)) =~= s);
    }
}

proof fn lemma_leading(s: Seq<char>)
    requires
        s.len() > 0,
        forall|i: int| 0 <= i < s.len() ==> '0' <= #[trigger] s[i] <= '9',
        s[0] != '0',
    ensures
        value(s) > 0,
    decreases s.len(),
{
    let rest = s.drop_last();
    if s.len() > 1 {
        assert forall|i: int| 0 <= i < rest.len() implies '0' <= #[trigger] rest[i] <= '9' by {
            assert(rest[i] == s[i]);
        }
        assert(rest[0] == s[0]);
        lemma_leading(rest);
    } else {
        assert(s[0] == s.last());
    }
}

/// Digits, with or without a plus sign in front, are read as the number that they say, up to the
/// largest there is; anything else is not read.
pub proof fn law_numbers_are_read_exactly(s: Seq<char>, max: nat)
    requires
        s.len() > 0 ==> s[0] != '+',
    ensures
        s.len() > 0 && (forall|i: int| 0 <= i < s.len() ==> '0' <= #[trigger] s[i] <= '9') && value(
            s,
        ) <= max ==> parsed(s, max) == Some(value(s)) && parsed(seq!['+'] + s, max) == Some(
            value(s),
        ),
        s.len() == 0 || (exists|i: int| 0 <= i < s.len() && !('0' <= #[trigger] s[i] <= '9'))
            || value(s) > max ==> parsed(s, max).is_none() && parsed(
            seq!['+'] + s,
            max,
        ).is_none(),
{
    let plus = seq!['+'] + s;
    assert(plus.skip(1) =~= s);
    assert(unsigned(plus) == s);
    assert(unsigned(s) == s);
    if exists|i: int| 0 <= i < s.len() && !('0' <= #[trigger] s[i] <= '9') {
        let i = choose|i: int| 0 <= i < s.len() && !('0' <= #[trigger] s[i] <= '9');
        assert(!is_digit(s[i]));
    }
    if forall|i: int| 0 <= i < s.len() ==> '0' <= #[trigger] s[i] <= '9' {
        assert forall|i: int| 0 <= i < s.len() implies is_digit(#[trigger] s[i]) by {}
    }
}

} // verus!
