//! Natural numbers as ASCII decimal text, written and read.

use vstd::prelude::*;

verus! {

/// ASCII `0`; the other digits follow it.
pub const DIGIT_ZERO: u8 = 48;

/// The ASCII digit for `d`, where `d < 10`.
pub open spec fn digit(d: nat) -> u8 {
    (DIGIT_ZERO + d) as u8
}

/// `b` is an ASCII digit.
pub open spec fn is_digit(b: u8) -> bool {
    DIGIT_ZERO <= b <= DIGIT_ZERO + 9
}

/// `n` in decimal, most significant digit first, without leading zeros.
pub open spec fn decimal(n: nat) -> Seq<u8>
    decreases n,
{
    if n < 10 {
        seq![digit(n)]
    } else {
        decimal(n / 10).push(digit(n % 10))
    }
}

/// The number that a string of digits stands for, leading zeros allowed.
pub open spec fn value_of(digits: Seq<u8>) -> nat
    decreases digits.len(),
{
    if digits.len() == 0 {
        0
    } else {
        value_of(digits.drop_last()) * 10 + (digits.last() - DIGIT_ZERO) as nat
    }
}

/// Every byte of `digits` is an ASCII digit.
pub open spec fn all_digits(digits: Seq<u8>) -> bool {
    forall|i: int| 0 <= i < digits.len() ==> is_digit(#[trigger] digits[i])
}

/// `digits` is the way this format writes a number: at least one digit, and
/// no leading zero in front of another digit.
pub open spec fn is_canonical(digits: Seq<u8>) -> bool {
    &&& digits.len() >= 1
    &&& all_digits(digits)
    &&& digits.len() > 1 ==> digits[0] != DIGIT_ZERO
}

/// Where the run of digits that starts at `pos` ends: the index of the first
/// byte from `pos` on that is no digit, or the length of `s`.
pub open spec fn run_end(s: Seq<u8>, pos: int) -> int
    decreases s.len() - pos,
{
    if 0 <= pos < s.len() && is_digit(s[pos]) {
        run_end(s, pos + 1)
    } else {
        pos
    }
}

/// The number written at `pos` and the index just behind it, if the digits
/// from `pos` on are a canonical number of at most `limit`.
pub open spec fn number_at(s: Seq<u8>, pos: int, limit: nat) -> Option<(nat, int)> {
    let end = run_end(s, pos);
    let digits = s.subrange(pos, end);
    if 0 <= pos <= s.len() && is_canonical(digits) && value_of(digits) <= limit {
        Some((value_of(digits), end))
    } else {
        None
    }
}

/// What `decimal` writes is canonical and stands for the number written.
pub proof fn lemma_decimal_reads_back(n: nat)
    ensures
        is_canonical(decimal(n)),
        value_of(decimal(n)) == n,
    decreases n,
{
    if n < 10 {
        assert(decimal(n).drop_last().len() == 0);
        assert(value_of(decimal(n).drop_last()) == 0);
    } else {
        lemma_decimal_reads_back(n / 10);
        let head = decimal(n / 10);
        assert(decimal(n).drop_last() == head);
        assert(decimal(n)[0] == head[0]);
        if head.len() == 1 {
            assert(head.drop_last().len() == 0);
            assert(value_of(head.drop_last()) == 0);
            assert(head[0] != DIGIT_ZERO);
        }
    }
}

/// A string of digits that does not start with a zero stands for a positive
/// number.
proof fn lemma_value_positive(digits: Seq<u8>)
    requires
        digits.len() >= 1,
        all_digits(digits),
        digits[0] != DIGIT_ZERO,
    ensures
        value_of(digits) > 0,
    decreases digits.len(),
{
    if digits.len() == 1 {
        assert(digits.last() == digits[0]);
    } else {
        let head = digits.drop_last();
        assert(head[0] == digits[0]);
        lemma_value_positive(head);
    }
}

/// A canonical string of digits is exactly what `decimal` writes for the
/// number it stands for.
pub proof fn lemma_canonical_is_decimal(digits: Seq<u8>)
    requires
        is_canonical(digits),
    ensures
        decimal(value_of(digits)) == digits,
    decreases digits.len(),
{
    let head = digits.drop_last();
    let last = (digits.last() - DIGIT_ZERO) as nat;
    assert(is_digit(digits.last()));
    if digits.len() == 1 {
        assert(head.len() == 0);
        assert(value_of(head) == 0);
        assert(decimal(last) =~= digits);
    } else {
        assert(head[0] == digits[0]);
        assert(forall|i: int| 0 <= i < head.len() ==> head[i] == digits[i]);
        lemma_value_positive(head);
        lemma_canonical_is_decimal(head);
        let v = value_of(digits);
        assert(v == value_of(head) * 10 + last);
        assert(v / 10 == value_of(head));
        assert(v % 10 == last);
        assert(decimal(v) =~= digits);
    }
}

/// Two numbers with the same decimal text are the same number.
pub proof fn lemma_decimal_injective(a: nat, b: nat)
    requires
        decimal(a) == decimal(b),
    ensures
        a == b,
{
    lemma_decimal_reads_back(a);
    lemma_decimal_reads_back(b);
}

/// A string of digits stands for at least as much as any of its prefixes.
proof fn lemma_value_grows(digits: Seq<u8>, k: int)
    requires
        0 <= k <= digits.len(),
    ensures
        value_of(digits.take(k)) <= value_of(digits),
    decreases digits.len() - k,
{
    if k == digits.len() {
        assert(digits.take(k) == digits);
    } else {
        let longer = digits.take(k + 1);
        assert(longer.drop_last() == digits.take(k));
        lemma_value_grows(digits, k + 1);
    }
}

/// Where a run of digits is followed by a byte that is no digit, or by the
/// end of the text, the run ends there.
pub proof fn lemma_run_end(s: Seq<u8>, pos: int, end: int)
    requires
        0 <= pos <= end <= s.len(),
        all_digits(s.subrange(pos, end)),
        end == s.len() || !is_digit(s[end]),
    ensures
        run_end(s, pos) == end,
    decreases end - pos,
{
    if pos < end {
        assert(s.subrange(pos, end)[0] == s[pos]);
        assert forall|i: int| 0 <= i < end - (pos + 1) implies is_digit(
            #[trigger] s.subrange(pos + 1, end)[i],
        ) by {
            assert(s.subrange(pos + 1, end)[i] == s.subrange(pos, end)[i + 1]);
        }
        lemma_run_end(s, pos + 1, end);
    }
}

/// The run of digits from `pos` lies within the text and holds digits only.
pub proof fn lemma_run_is_digits(s: Seq<u8>, pos: int)
    requires
        0 <= pos <= s.len(),
    ensures
        pos <= run_end(s, pos) <= s.len(),
        all_digits(s.subrange(pos, run_end(s, pos))),
        run_end(s, pos) == s.len() || !is_digit(s[run_end(s, pos)]),
    decreases s.len() - pos,
{
    if pos < s.len() && is_digit(s[pos]) {
        lemma_run_is_digits(s, pos + 1);
        let end = run_end(s, pos);
        assert forall|i: int| 0 <= i < end - pos implies is_digit(
            #[trigger] s.subrange(pos, end)[i],
        ) by {
            if i > 0 {
                assert(s.subrange(pos, end)[i] == s.subrange(pos + 1, end)[i - 1]);
            }
        }
    }
}

/// Where the text holds `decimal(n)` at `pos`, followed by a byte that is no
/// digit or by the end of the text, that number is read there.
pub proof fn lemma_number_at_decimal(s: Seq<u8>, pos: int, n: nat, limit: nat)
    requires
        0 <= pos,
        pos + decimal(n).len() <= s.len(),
        s.subrange(pos, pos + decimal(n).len()) == decimal(n),
        pos + decimal(n).len() == s.len() || !is_digit(s[pos + decimal(n).len()]),
        n <= limit,
    ensures
        number_at(s, pos, limit) == Some((n, pos + decimal(n).len())),
{
    lemma_decimal_reads_back(n);
    lemma_run_end(s, pos, pos + decimal(n).len());
}

/// What is read at `pos` is the decimal text of the number read, it is at
/// least one byte long, and no digit follows it.
pub proof fn lemma_number_at_sound(s: Seq<u8>, pos: int, limit: nat)
    requires
        number_at(s, pos, limit) is Some,
    ensures
        ({
            let (n, end) = number_at(s, pos, limit).unwrap();
            &&& 0 <= pos < end <= s.len()
            &&& s.subrange(pos, end) == decimal(n)
            &&& n <= limit
            &&& end == s.len() || !is_digit(s[end])
        }),
{
    lemma_run_is_digits(s, pos);
    lemma_canonical_is_decimal(s.subrange(pos, run_end(s, pos)));
}

/// Appends `n` in decimal to `out`.
pub fn push_decimal(out: &mut Vec<u8>, n: usize)
    ensures
        final(out)@ == old(out)@ + decimal(n as nat),
    decreases n,
{
    if n >= 10 {
        push_decimal(out, n / 10);
    }
    let d: u8 = (n % 10) as u8;
    out.push(DIGIT_ZERO + d);
}

/// Reads the number written at `pos`: the whole run of digits that starts
/// there, which must be canonical and stand for at most `limit`. Returns the
/// number and the index just behind its digits, or `None` where no such
/// number stands at `pos` or `pos` lies beyond the text.
pub fn read_decimal(text: &[u8], pos: usize, limit: usize) -> (r: Option<(usize, usize)>)
    ensures
        match r {
            Some((n, end)) => number_at(text@, pos as int, limit as nat) == Some(
                (n as nat, end as int),
            ),
            None => number_at(text@, pos as int, limit as nat) is None,
        },
{
    if pos > text.len() {
        return None;
    }
    let mut end: usize = pos;
    while end < text.len() && DIGIT_ZERO <= text[end] && text[end] <= DIGIT_ZERO + 9
        invariant
            pos <= end <= text@.len(),
            all_digits(text@.subrange(pos as int, end as int)),
        decreases text@.len() - end,
    {
        proof {
            let run = text@.subrange(pos as int, end + 1);
            assert forall|i: int| 0 <= i < run.len() implies is_digit(#[trigger] run[i]) by {
                if i < end - pos {
                    assert(run[i] == text@.subrange(pos as int, end as int)[i]);
                }
            }
        }
        end += 1;
    }
    let ghost digits = text@.subrange(pos as int, end as int);
    proof {
        lemma_run_end(text@, pos as int, end as int);
    }
    if end == pos {
        return None;
    }
    if text[pos] == DIGIT_ZERO && end - pos > 1 {
        assert(digits[0] == DIGIT_ZERO);
        return None;
    }
    assert(digits[0] == text@[pos as int]);
    let mut value: usize = 0;
    let mut i: usize = pos;
    while i < end
        invariant
            pos <= i <= end <= text@.len(),
            digits == text@.subrange(pos as int, end as int),
            run_end(text@, pos as int) == end,
            is_canonical(digits),
            value == value_of(digits.take(i - pos)),
            value <= limit,
        decreases end - i,
    {
        assert(is_digit(digits[i - pos]));
        let d: usize = (text[i] - DIGIT_ZERO) as usize;
        proof {
            let longer = digits.take(i - pos + 1);
            assert(longer.drop_last() == digits.take(i - pos));
            assert(longer.last() == digits[i - pos]);
            assert(value_of(longer) == value * 10 + d);
            lemma_value_grows(digits, i - pos + 1);
        }
        if d > limit || value > (limit - d) / 10 {
            return None;
        }
        value = value * 10 + d;
        i += 1;
    }
    proof {
        assert(digits.take(end - pos) == digits);
    }
    Some((value, end))
}

} // verus!
