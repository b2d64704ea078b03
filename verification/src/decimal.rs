//! Decimal numbers in ASCII, as lengths and integers are written.

use vstd::prelude::*;

verus! {

/// The ASCII digit `0`.
pub const DIGIT_ZERO: u8 = 0x30;

/// The ASCII digit `9`.
pub const DIGIT_NINE: u8 = 0x39;

/// The ASCII minus sign.
pub const MINUS_SIGN: u8 = 0x2d;

/// The ASCII plus sign.
pub const PLUS_SIGN: u8 = 0x2b;

/// Whether `b` is one of the ASCII digits `0` to `9`.
pub open spec fn is_digit(b: u8) -> bool {
    DIGIT_ZERO <= b <= DIGIT_NINE
}

/// The decimal digits of `n`, most significant first and without leading
/// zeros; zero is written `0`.
pub open spec fn spec_digits(n: nat) -> Seq<u8>
    decreases n,
{
    if n < 10 {
        seq![(DIGIT_ZERO + n) as u8]
    } else {
        spec_digits(n / 10).push((DIGIT_ZERO + n % 10) as u8)
    }
}

/// The decimal text of `i`: a minus sign before the digits of a negative
/// number.
pub open spec fn spec_int_text(i: int) -> Seq<u8> {
    if i < 0 {
        seq![MINUS_SIGN] + spec_digits((-i) as nat)
    } else {
        spec_digits(i as nat)
    }
}

/// The number that the digits `d` write.
pub open spec fn digits_value(d: Seq<u8>) -> int
    decreases d.len(),
{
    if d.len() == 0 {
        0
    } else {
        digits_value(d.drop_last()) * 10 + (d.last() - DIGIT_ZERO)
    }
}

/// The first index at or after `from` that holds no digit; the length of `s`
/// when digits run to its end.
pub open spec fn digits_end(s: Seq<u8>, from: int) -> int
    decreases s.len() - from,
{
    if from < 0 || from >= s.len() || !is_digit(s[from]) {
        from
    } else {
        digits_end(s, from + 1)
    }
}

/// `digits_end` stays inside `s`, and everything between `from` and it is a
/// digit.
pub proof fn lemma_digits_end(s: Seq<u8>, from: int)
    requires
        0 <= from <= s.len(),
    ensures
        from <= digits_end(s, from) <= s.len(),
        forall|i: int| from <= i < digits_end(s, from) ==> is_digit(#[trigger] s[i]),
        digits_end(s, from) < s.len() ==> !is_digit(s[digits_end(s, from)]),
    decreases s.len() - from,
{
    if from < s.len() && is_digit(s[from]) {
        lemma_digits_end(s, from + 1);
    }
}

/// A run of digits that ends at `end` is what `digits_end` finds.
pub proof fn lemma_digits_end_of_run(s: Seq<u8>, from: int, end: int)
    requires
        0 <= from <= end <= s.len(),
        forall|i: int| from <= i < end ==> is_digit(#[trigger] s[i]),
        end < s.len() ==> !is_digit(s[end]),
    ensures
        digits_end(s, from) == end,
    decreases end - from,
{
    if from < end {
        lemma_digits_end_of_run(s, from + 1, end);
    }
}

/// The digits of a number are digits, start with `0` only for zero, and
/// write that number.
pub proof fn lemma_digits(n: nat)
    ensures
        spec_digits(n).len() >= 1,
        forall|i: int| 0 <= i < spec_digits(n).len() ==> is_digit(#[trigger] spec_digits(n)[i]),
        spec_digits(n)[0] == DIGIT_ZERO <==> n == 0,
        n == 0 ==> spec_digits(n).len() == 1,
        digits_value(spec_digits(n)) == n,
    decreases n,
{
    if n < 10 {
        let d = spec_digits(n);
        assert(d.drop_last() =~= Seq::<u8>::empty());
        assert(digits_value(d.drop_last()) == 0);
    } else {
        lemma_digits(n / 10);
        let d = spec_digits(n);
        assert(d.drop_last() =~= spec_digits(n / 10));
        assert(d[0] == spec_digits(n / 10)[0]);
    }
}

/// Walks over the digits of `s` from `from` on and computes the number they
/// write, as long as it does not go over `limit`.
pub fn scan_digits(s: &[u8], from: usize, limit: u64) -> (r: (usize, Option<u64>))
    requires
        from <= s.len(),
    ensures
        r.0 == digits_end(s@, from as int),
        from <= r.0 <= s.len(),
        match r.1 {
            Some(value) => value == digits_value(s@.subrange(from as int, r.0 as int)) && value <= limit,
            None => digits_value(s@.subrange(from as int, r.0 as int)) > limit,
        },
{
    let mut i: usize = from;
    let mut value: u128 = 0;
    let mut over: bool = false;
    assert(s@.subrange(from as int, from as int) =~= Seq::<u8>::empty());
    while i < s.len() && s[i] >= DIGIT_ZERO && s[i] <= DIGIT_NINE
        invariant
            from <= i <= s.len(),
            digits_end(s@, from as int) == digits_end(s@, i as int),
            !over ==> value == digits_value(s@.subrange(from as int, i as int)) && value <= limit,
            over ==> digits_value(s@.subrange(from as int, i as int)) > limit,
        decreases s.len() - i,
    {
        assert(s@.subrange(from as int, i + 1).drop_last() =~= s@.subrange(from as int, i as int));
        if !over {
            value = value * 10 + (s[i] - DIGIT_ZERO) as u128;
            if value > limit as u128 {
                over = true;
            }
        }
        i += 1;
    }
    if over {
        (i, None)
    } else {
        (i, Some(value as u64))
    }
}

/// Appends the decimal digits of `n` to `out`.
pub fn push_digits(out: &mut Vec<u8>, n: u64)
    ensures
        final(out)@ == old(out)@ + spec_digits(n as nat),
    decreases n,
{
    if n >= 10 {
        push_digits(out, n / 10);
    }
    out.push(DIGIT_ZERO + (n % 10) as u8);
    assert(out@ =~= old(out)@ + spec_digits(n as nat));
}

/// Appends the decimal text of `i` to `out`.
pub fn push_int_text(out: &mut Vec<u8>, i: i64)
    ensures
        final(out)@ == old(out)@ + spec_int_text(i as int),
{
    if i < 0 {
        out.push(MINUS_SIGN);
        let magnitude: u64 = if i == i64::MIN {
            0x8000_0000_0000_0000u64
        } else {
            (-i) as u64
        };
        push_digits(out, magnitude);
        assert(out@ =~= old(out)@ + spec_int_text(i as int));
    } else {
        push_digits(out, i as u64);
    }
}

} // verus!
