//! Decimal numerals, read from text.

use crate::text::{decimal, digit_char};
use vstd::prelude::*;

verus! {

/// Whether `c` is one of the digits `0` to `9`.
pub open spec fn is_digit(c: char) -> bool {
    '0' <= c && c <= '9'
}

/// The number that the digit `c` stands for.
pub open spec fn digit_value(c: char) -> nat {
    (c as u32 - 48) as nat
}

/// The number that a sequence of digits stands for; leading zeros count for nothing.
pub open spec fn value(s: Seq<char>) -> nat
    decreases s.len(),
{
    if s.len() == 0 {
        0
    } else {
        value(s.drop_last()) * 10 + digit_value(s.last())
    }
}

/// Whether every character of `s` is a digit.
pub open spec fn all_digits(s: Seq<char>) -> bool {
    forall|i: int| 0 <= i < s.len() ==> is_digit(#[trigger] s[i])
}

/// Whether `s` is a numeral as it is written: at least one digit, and no
/// leading zero but in `0` itself.
pub open spec fn is_numeral(s: Seq<char>) -> bool {
    s.len() > 0 && all_digits(s) && (s.len() == 1 || s[0] != '0')
}

/// Where the digits that start at `from` end.
pub open spec fn run_end(s: Seq<char>, from: int) -> int
    decreases s.len() - from,
{
    if from < 0 || from >= s.len() || !is_digit(s[from]) {
        from
    } else {
        run_end(s, from + 1)
    }
}

/// The numeral that starts at `from`, as far as the digits go, with the
/// place where it ends; `None` where no digit stands there, where the
/// digits have a leading zero, or where the number does not fit 64 bits.
pub open spec fn scan(s: Seq<char>, from: int) -> Option<(u64, int)> {
    let end = run_end(s, from);
    if 0 <= from < end <= s.len() && is_numeral(s.subrange(from, end)) && value(
        s.subrange(from, end),
    ) <= u64::MAX {
        Some((value(s.subrange(from, end)) as u64, end))
    } else {
        None
    }
}

/// The digits are the characters of the decimal digits.
pub proof fn lemma_digit_char(d: nat)
    requires
        d < 10,
    ensures
        is_digit(digit_char(d)),
        digit_value(digit_char(d)) == d,
{
}

/// Every digit is the character of its value.
pub proof fn lemma_digit_value(c: char)
    requires
        is_digit(c),
    ensures
        digit_value(c) < 10,
        digit_char(digit_value(c)) == c,
{
    let code = c as u32;
    assert(48 <= code <= 57);
    if code == 48 {
        assert(c == '0');
    } else if code == 49 {
        assert(c == '1');
    } else if code == 50 {
        assert(c == '2');
    } else if code == 51 {
        assert(c == '3');
    } else if code == 52 {
        assert(c == '4');
    } else if code == 53 {
        assert(c == '5');
    } else if code == 54 {
        assert(c == '6');
    } else if code == 55 {
        assert(c == '7');
    } else if code == 56 {
        assert(c == '8');
    } else {
        assert(c == '9');
    }
}

/// The decimal numeral of a number is a numeral, and it stands for the number.
pub proof fn lemma_decimal_value(n: nat)
    ensures
        is_numeral(decimal(n)),
        value(decimal(n)) == n,
        n >= 1 ==> decimal(n)[0] != '0',
    decreases n,
{
    if n < 10 {
        lemma_digit_char(n);
        let s = decimal(n);
        assert(s.drop_last() =~= Seq::<char>::empty());
        assert(value(s.drop_last()) == 0);
    } else {
        lemma_decimal_value(n / 10);
        lemma_digit_char(n % 10);
        let t = decimal(n / 10);
        let s = decimal(n);
        assert(s == t.push(digit_char(n % 10)));
        assert(s.drop_last() =~= t);
        assert(s[0] == t[0]);
        assert forall|i: int| 0 <= i < s.len() implies is_digit(#[trigger] s[i]) by {
            if i < t.len() {
                assert(s[i] == t[i]);
            }
        }
    }
}

/// A sequence of digits that does not start with zero stands for a number
/// that is not zero.
pub proof fn lemma_value_positive(s: Seq<char>)
    requires
        s.len() > 0,
        all_digits(s),
        s[0] != '0',
    ensures
        value(s) >= 1,
    decreases s.len(),
{
    if s.len() == 1 {
        assert(s.drop_last() =~= Seq::<char>::empty());
        assert(value(s.drop_last()) == 0);
        assert(is_digit(s[0]));
    } else {
        let t = s.drop_last();
        assert(t[0] == s[0]);
        assert forall|i: int| 0 <= i < t.len() implies is_digit(#[trigger] t[i]) by {
            assert(t[i] == s[i]);
        }
        lemma_value_positive(t);
    }
}

/// A numeral is the decimal numeral of the number that it stands for.
pub proof fn lemma_numeral_is_decimal(s: Seq<char>)
    requires
        is_numeral(s),
    ensures
        decimal(value(s)) == s,
    decreases s.len(),
{
    let c = s.last();
    let t = s.drop_last();
    assert(is_digit(s[s.len() - 1]));
    lemma_digit_value(c);
    if s.len() == 1 {
        assert(t =~= Seq::<char>::empty());
        assert(value(t) == 0);
        assert(decimal(value(s)) =~= s);
    } else {
        assert(t[0] == s[0]);
        assert forall|i: int| 0 <= i < t.len() implies is_digit(#[trigger] t[i]) by {
            assert(t[i] == s[i]);
        }
        lemma_value_positive(t);
        lemma_numeral_is_decimal(t);
        let n = value(s);
        assert(n == value(t) * 10 + digit_value(c));
        assert(n / 10 == value(t) && n % 10 == digit_value(c)) by (nonlinear_arith)
            requires
                n == value(t) * 10 + digit_value(c),
                digit_value(c) < 10,
        ;
        assert(decimal(n) =~= t.push(c));
        assert(t.push(c) =~= s);
    }
}

/// The digits end where the first character stands that is no digit.
pub proof fn lemma_run_end(s: Seq<char>, from: int)
    requires
        0 <= from <= s.len(),
    ensures
        from <= run_end(s, from) <= s.len(),
        all_digits(s.subrange(from, run_end(s, from))),
        run_end(s, from) < s.len() ==> !is_digit(s[run_end(s, from)]),
    decreases s.len() - from,
{
    if from < s.len() && is_digit(s[from]) {
        lemma_run_end(s, from + 1);
        let end = run_end(s, from);
        let run = s.subrange(from, end);
        assert forall|i: int| 0 <= i < run.len() implies is_digit(#[trigger] run[i]) by {
            if i > 0 {
                assert(run[i] == s.subrange(from + 1, end)[i - 1]);
            }
        }
    }
}

/// Digits that are followed by no digit end where they stop.
pub proof fn lemma_run_of_digits(s: Seq<char>, from: int, end: int)
    requires
        0 <= from <= end <= s.len(),
        all_digits(s.subrange(from, end)),
        end < s.len() ==> !is_digit(s[end]),
    ensures
        run_end(s, from) == end,
    decreases end - from,
{
    if from < end {
        assert(s.subrange(from, end)[0] == s[from]);
        assert forall|i: int| 0 <= i < end - from - 1 implies is_digit(
            #[trigger] s.subrange(from + 1, end)[i],
        ) by {
            assert(s.subrange(from + 1, end)[i] == s.subrange(from, end)[i + 1]);
        }
        lemma_run_of_digits(s, from + 1, end);
    }
}

/// Where the decimal numeral of `n` stands at `from` and no digit follows
/// it, the numeral that is read there is `n`.
pub proof fn lemma_scan_decimal(s: Seq<char>, from: int, n: u64)
    requires
        0 <= from,
        from + decimal(n as nat).len() <= s.len(),
        s.subrange(from, from + decimal(n as nat).len()) == decimal(n as nat),
        from + decimal(n as nat).len() < s.len() ==> !is_digit(s[from + decimal(n as nat).len()]),
    ensures
        scan(s, from) == Some((n, from + decimal(n as nat).len())),
{
    lemma_decimal_value(n as nat);
    lemma_run_of_digits(s, from, from + decimal(n as nat).len());
}

/// What is read is the decimal numeral of the number, followed by no digit.
pub proof fn lemma_scan(s: Seq<char>, from: int)
    ensures
        scan(s, from) matches Some((n, end)) ==> 0 <= from < end <= s.len() && s.subrange(from, end)
            == decimal(n as nat) && (end < s.len() ==> !is_digit(s[end])),
{
    if scan(s, from) is Some {
        let end = run_end(s, from);
        lemma_run_end(s, from);
        lemma_numeral_is_decimal(s.subrange(from, end));
    }
}

/// A result of reading, with the place as a mathematical integer.
pub open spec fn scanned(r: Option<(u64, usize)>) -> Option<(u64, int)> {
    match r {
        Some((n, end)) => Some((n, end as int)),
        None => None,
    }
}

/// Whether `c` is one of the digits `0` to `9`.
pub fn is_ascii_digit(c: char) -> (b: bool)
    ensures
        b == is_digit(c),
{
    '0' <= c && c <= '9'
}

/// Reads the numeral that starts at `from`.
pub(crate) fn scan_number(chars: &Vec<char>, from: usize) -> (r: Option<(u64, usize)>)
    requires
        from <= chars.len(),
    ensures
        scanned(r) == scan(chars@, from as int),
        r matches Some((_, end)) ==> from < end <= chars.len(),
{
    let ghost s = chars@;
    let mut end: usize = from;
    let mut acc: u64 = 0;
    let mut overflow = false;
    assert(s.subrange(from as int, end as int) =~= Seq::<char>::empty());
    while end < chars.len() && is_ascii_digit(chars[end])
        invariant
            from <= end <= chars.len(),
            s == chars@,
            run_end(s, from as int) == run_end(s, end as int),
            all_digits(s.subrange(from as int, end as int)),
            !overflow ==> acc == value(s.subrange(from as int, end as int)),
            overflow ==> value(s.subrange(from as int, end as int)) > u64::MAX,
        decreases chars.len() - end,
    {
        let c = chars[end];
        let d: u64 = (c as u32 - 48) as u64;
        proof {
            let old_run = s.subrange(from as int, end as int);
            let new_run = s.subrange(from as int, end + 1);
            assert(new_run.drop_last() =~= old_run);
            assert(new_run.last() == c);
            assert(value(new_run) == value(old_run) * 10 + digit_value(c));
            assert forall|i: int| 0 <= i < new_run.len() implies is_digit(#[trigger] new_run[i]) by {
                if i < old_run.len() {
                    assert(new_run[i] == old_run[i]);
                }
            }
        }
        if !overflow {
            if acc > 1844674407370955161 || (acc == 1844674407370955161 && d > 5) {
                overflow = true;
            } else {
                acc = acc * 10 + d;
            }
        }
        end = end + 1;
    }
    proof {
        lemma_run_end(s, from as int);
        assert(run_end(s, end as int) == end);
    }
    if end == from || overflow {
        return None;
    }
    if end - from > 1 && chars[from] == '0' {
        assert(s.subrange(from as int, end as int)[0] == s[from as int]);
        return None;
    }
    assert(s.subrange(from as int, end as int)[0] == s[from as int]);
    Some((acc, end))
}

} // verus!
