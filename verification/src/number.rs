//! Numbers written in decimal.

use crate::chars::to_chars;
use vstd::prelude::*;

verus! {

/// A decimal digit.
pub open spec fn digit(c: char) -> bool {
    '0' <= c <= '9'
}

/// Only digits.
pub open spec fn digits(s: Seq<char>) -> bool {
    forall|i: int| 0 <= i < s.len() ==> digit(#[trigger] s[i])
}

/// The number that some digits write.
pub open spec fn value(s: Seq<char>) -> nat
    decreases s.len(),
{
    if s.len() == 0 {
        0
    } else {
        10 * value(s.drop_last()) + (s.last() as nat - '0' as nat) as nat
    }
}

/// A number may have a plus sign in front.
pub open spec fn unsigned_part(s: Seq<char>) -> Seq<char> {
    if s.len() > 0 && s[0] == '+' {
        s.drop_first()
    } else {
        s
    }
}

/// `s` writes a number that the machine can hold.
pub open spec fn writes_number(s: Seq<char>) -> bool {
    let d = unsigned_part(s);
    d.len() > 0 && digits(d) && value(d) <= usize::MAX
}

proof fn lemma_value_monotone(s: Seq<char>, k: int)
    requires
        0 <= k <= s.len(),
        digits(s),
    ensures
        value(s.take(k)) <= value(s),
    decreases s.len() - k,
{
    if k < s.len() {
        lemma_value_monotone(s, k + 1);
        assert(s.take(k + 1).drop_last() =~= s.take(k));
        assert(digit(s[k]));
    } else {
        assert(s.take(k) =~= s);
    }
}

/// The number that `s` writes, if it writes one: digits only, at least one, a plus sign in front
/// allowed, and no larger than the machine's.
pub fn parse_usize(s: &str) -> (r: Option<usize>)
    ensures
        match r {
            Some(n) => writes_number(s@) && n == value(unsigned_part(s@)),
            None => !writes_number(s@),
        },
{
    let v = to_chars(s);
    let from: usize = if v.len() > 0 && v[0] == '+' {
        1
    } else {
        0
    };
    let ghost d = unsigned_part(s@);
    assert(d =~= v@.subrange(from as int, v@.len() as int));
    if from == v.len() {
        return None;
    }
    let mut n: usize = 0;
    let mut i: usize = from;
    while i < v.len()
        invariant
            from <= i <= v@.len(),
            v@ == s@,
            d == unsigned_part(s@),
            d == v@.subrange(from as int, v@.len() as int),
            digits(d.take(i - from)),
            n == value(d.take(i - from)),
        decreases v@.len() - i,
    {
        let c = v[i];
        let ghost k = i - from;
        assert(d[k] == c);
        assert(d.take(k + 1).drop_last() =~= d.take(k));
        assert(d.take(k + 1)[k] == c);
        if !('0' <= c && c <= '9') {
            assert(!digit(d[k]));
            return None;
        }
        let x: usize = (c as u32 - '0' as u32) as usize;
        match n.checked_mul(10) {
            Some(m) => match m.checked_add(x) {
                Some(t) => {
                    n = t;
                },
                None => {
                    proof {
                        if digits(d) {
                            lemma_value_monotone(d, k + 1);
                        }
                    }
                    return None;
                },
            },
            None => {
                proof {
                    if digits(d) {
                        lemma_value_monotone(d, k + 1);
                    }
                }
                return None;
            },
        }
        assert forall|j: int| 0 <= j < k + 1 implies digit(#[trigger] d.take(k + 1)[j]) by {
            if j < k {
                assert(d.take(k)[j] == d.take(k + 1)[j]);
            }
        }
        i += 1;
    }
    assert(d.take(i - from) =~= d);
    Some(n)
}

/// The number of items to take together: `s` where it writes a positive number.
pub fn parse_positive(s: &str) -> (r: Option<usize>)
    ensures
        match r {
            Some(n) => n > 0 && writes_number(s@) && n == value(unsigned_part(s@)),
            None => !writes_number(s@) || value(unsigned_part(s@)) == 0,
        },
{
    match parse_usize(s) {
        Some(n) => if n > 0 {
            Some(n)
        } else {
            None
        },
        None => None,
    }
}

/// The digit that stands for `d`.
pub open spec fn digit_char(d: nat) -> char {
    ((48 + d) as u32) as char
}

/// A number in decimal, without leading zeros.
pub open spec fn written(n: nat) -> Seq<char>
    decreases n,
{
    if n < 10 {
        seq![digit_char(n)]
    } else {
        written(n / 10).push(digit_char(n % 10))
    }
}

fn digit_of(d: usize) -> (c: char)
    requires
        d < 10,
    ensures
        c == digit_char(d as nat),
{
    (48u8 + d as u8) as char
}

/// Writes a number in decimal.
pub fn write_usize(n: usize) -> (s: String)
    ensures
        s@ == written(n as nat),
    decreases n,
{
    if n < 10 {
        let mut s = String::new();
        s.push(digit_of(n));
        assert(s@ =~= seq![digit_char(n as nat)]);
        s
    } else {
        let mut s = write_usize(n / 10);
        s.push(digit_of(n % 10));
        s
    }
}

/// What is written reads as the number it was written for; so no two numbers are written alike.
pub proof fn writing_and_reading_agree(n: nat)
    ensures
        digits(written(n)),
        written(n).len() > 0,
        value(written(n)) == n,
        unsigned_part(written(n)) == written(n),
    decreases n,
{
    if n < 10 {
        assert(seq![digit_char(n)].drop_last() =~= Seq::<char>::empty());
        assert(value(Seq::<char>::empty()) == 0);
    } else {
        writing_and_reading_agree(n / 10);
        assert(written(n).drop_last() =~= written(n / 10));
        assert forall|i: int| 0 <= i < written(n).len() implies digit(#[trigger] written(n)[i]) by {
            if i < written(n / 10).len() {
                assert(written(n)[i] == written(n / 10)[i]);
            }
        }
    }
    assert(digit(written(n)[0]));
}

/// Numbers are read in tens: a further digit puts ten times what came before in front of it.
pub proof fn digits_count_in_tens(s: Seq<char>, c: char)
    requires
        digit(c),
    ensures
        value(Seq::empty()) == 0,
        value(s.push(c)) == 10 * value(s) + (c as int - 0x30),
{
    assert(s.push(c).drop_last() =~= s);
}

/// What counts as a number: one or more of the ten digits, behind at most one plus sign.
pub proof fn a_number_is_digits_behind_an_optional_plus(s: Seq<char>)
    ensures
        writes_number(s) ==> s.len() > 0 && (s[0] == '+' || '0' <= s[0] <= '9'),
        writes_number(s) ==> s[0] == '+' ==> s.len() > 1,
        writes_number(s) ==> forall|i: int| 1 <= i < s.len() ==> '0' <= #[trigger] s[i] <= '9',
        forall|i: int| 0 <= i < s.len() && !('0' <= #[trigger] s[i] <= '9') && s[0] != '+' ==> !writes_number(s),
        s.len() > 0 && (forall|i: int| 0 <= i < s.len() ==> '0' <= #[trigger] s[i] <= '9') && value(s)
            <= usize::MAX ==> writes_number(s) && unsigned_part(s) == s,
        s.len() > 0 && s[0] == '+' ==> unsigned_part(s) == s.subrange(1, s.len() as int),
{
    let d = unsigned_part(s);
    if s.len() > 0 && s[0] == '+' {
        assert(d =~= s.subrange(1, s.len() as int));
    }
    if writes_number(s) {
        assert(digit(d[0]));
        assert forall|i: int| 1 <= i < s.len() implies '0' <= #[trigger] s[i] <= '9' by {
            if s[0] == '+' {
                assert(digit(d[i - 1]));
            } else {
                assert(digit(d[i]));
            }
        }
    }
}

/// A number is written without leading zeros, the digit of the ones last.
pub proof fn numbers_are_written_without_leading_zeros(n: nat)
    ensures
        written(n).len() > 0,
        n == 0 ==> written(n) == seq!['0'],
        n > 0 ==> written(n)[0] != '0',
        written(n).last() as int == 0x30 + n % 10,
        n >= 10 ==> written(n).drop_last() == written(n / 10),
    decreases n,
{
    if n >= 10 {
        numbers_are_written_without_leading_zeros(n / 10);
        assert(written(n).drop_last() =~= written(n / 10));
        assert(written(n)[0] == written(n / 10)[0]);
    } else {
        assert(written(n) =~= seq![digit_char(n)]);
        assert(digit_char(0) == '0');
    }
}

} // verus!
