//! Decimal numbers as text: fixed-width, zero-padded digit strings and
//! their values.

use crate::text::push_char;
use vstd::prelude::*;

verus! {

/// Whether `c` is one of `0` to `9`.
pub open spec fn is_digit(c: char) -> bool {
    48 <= c as u32 <= 57
}

/// The character for the digit `d`, for `d` from 0 to 9.
pub open spec fn digit_char(d: int) -> char {
    (48 + d) as u8 as char
}

/// The digit that `c` stands for.
pub open spec fn digit_value(c: char) -> int {
    (c as u32) as int - 48
}

/// Ten to the power `w`.
pub open spec fn pow10(w: nat) -> nat
    decreases w,
{
    if w == 0 {
        1
    } else {
        10 * pow10((w - 1) as nat)
    }
}

/// The last `width` decimal digits of `n`, most significant first, with
/// zeros in front where `n` is short.
pub open spec fn digits(n: nat, width: nat) -> Seq<char>
    decreases width,
{
    if width == 0 {
        Seq::empty()
    } else {
        digits(n / 10, (width - 1) as nat).push(digit_char((n % 10) as int))
    }
}

/// Whether `s` holds digits only.
pub open spec fn all_digits(s: Seq<char>) -> bool {
    forall|i: int| 0 <= i < s.len() ==> is_digit(#[trigger] s[i])
}

/// The number that the digit string `s` writes.
pub open spec fn number(s: Seq<char>) -> nat
    decreases s.len(),
{
    if s.len() == 0 {
        0
    } else {
        (number(s.drop_last()) * 10 + digit_value(s.last())) as nat
    }
}

/// How many digits stand at the front of `s`.
pub open spec fn digit_run(s: Seq<char>) -> nat
    decreases s.len(),
{
    if s.len() == 0 || !is_digit(s[0]) {
        0
    } else {
        1 + digit_run(s.drop_first())
    }
}

/// How many digits `n` takes without zeros in front.
pub open spec fn width(n: nat) -> nat
    decreases n,
{
    if n < 10 {
        1
    } else {
        1 + width(n / 10)
    }
}

/// A digit is the character of its own value.
pub proof fn lemma_digit_char_value(c: char)
    requires
        is_digit(c),
    ensures
        digit_char(digit_value(c)) == c,
        0 <= digit_value(c) <= 9,
        (c == '0') == (digit_value(c) == 0),
{
}

/// A digit string of width `w` has `w` digits.
pub proof fn lemma_digits_shape(n: nat, w: nat)
    ensures
        digits(n, w).len() == w,
        all_digits(digits(n, w)),
    decreases w,
{
    if w > 0 {
        lemma_digits_shape(n / 10, (w - 1) as nat);
    }
}

/// Reading back what was written gives the number, where it fits the width.
pub proof fn lemma_number_of_digits(n: nat, w: nat)
    requires
        n < pow10(w),
    ensures
        number(digits(n, w)) == n,
    decreases w,
{
    if w > 0 {
        lemma_number_of_digits(n / 10, (w - 1) as nat);
        let s = digits(n, w);
        assert(s.drop_last() =~= digits(n / 10, (w - 1) as nat));
    }
}

/// Writing the value of a digit string at its own width gives the string.
pub proof fn lemma_digits_of_number(s: Seq<char>)
    requires
        all_digits(s),
    ensures
        number(s) < pow10(s.len()),
        digits(number(s), s.len()) == s,
    decreases s.len(),
{
    if s.len() > 0 {
        let init = s.drop_last();
        lemma_digits_of_number(init);
        lemma_digit_char_value(s.last());
    }
}

/// The digits at the front end at the first character that is none.
pub proof fn lemma_digit_run_bounds(s: Seq<char>)
    ensures
        digit_run(s) <= s.len(),
        all_digits(s.take(digit_run(s) as int)),
        digit_run(s) < s.len() ==> !is_digit(s[digit_run(s) as int]),
    decreases s.len(),
{
    if s.len() > 0 && is_digit(s[0]) {
        let rest = s.drop_first();
        lemma_digit_run_bounds(rest);
        let k = digit_run(s) as int;
        assert forall|i: int| 0 <= i < k implies is_digit(#[trigger] s.take(k)[i]) by {
            if i > 0 {
                assert(s.take(k)[i] == rest.take(k - 1)[i - 1]);
            }
        }
    }
}

/// `k` digits followed by something else, or by nothing, are the run.
pub proof fn lemma_digit_run_is(s: Seq<char>, k: nat)
    requires
        k <= s.len(),
        all_digits(s.take(k as int)),
        k < s.len() ==> !is_digit(s[k as int]),
    ensures
        digit_run(s) == k,
    decreases k,
{
    if k > 0 {
        let rest = s.drop_first();
        assert(s[0] == s.take(k as int)[0]);
        assert forall|i: int| 0 <= i < k - 1 implies is_digit(#[trigger] rest.take(k - 1)[i]) by {
            assert(rest.take(k - 1)[i] == s.take(k as int)[i + 1]);
        }
        lemma_digit_run_is(rest, (k - 1) as nat);
    }
}

/// A number lies between the powers of ten that its width names.
pub proof fn lemma_width_bounds(n: nat)
    ensures
        width(n) >= 1,
        n < pow10(width(n)),
        n >= 10 ==> n >= pow10((width(n) - 1) as nat),
    decreases n,
{
    if n >= 10 {
        lemma_width_bounds(n / 10);
        if n / 10 < 10 {
            assert(pow10(1) == 10) by {
                reveal_with_fuel(pow10, 2);
            }
        }
    } else {
        assert(pow10(1) == 10) by {
            reveal_with_fuel(pow10, 2);
        }
    }
}

/// A number between two neighbouring powers of ten has the width of the
/// greater.
pub proof fn lemma_width_is(n: nat, w: nat)
    requires
        w >= 1,
        n < pow10(w),
        w >= 2 ==> n >= pow10((w - 1) as nat),
    ensures
        width(n) == w,
    decreases w,
{
    reveal_with_fuel(pow10, 2);
    if w > 1 {
        lemma_width_is(n / 10, (w - 1) as nat);
    }
}

/// Powers of ten grow with the exponent.
pub proof fn lemma_pow10_grows(a: nat, b: nat)
    requires
        a <= b,
    ensures
        1 <= pow10(a) <= pow10(b),
    decreases b,
{
    if b == 0 {
    } else if a == b {
        lemma_pow10_grows(0, (b - 1) as nat);
    } else {
        lemma_pow10_grows(a, (b - 1) as nat);
    }
}

/// The first digit of a string is zero exactly when its value falls short
/// of the string's width.
pub proof fn lemma_leading_zero(s: Seq<char>)
    requires
        s.len() >= 1,
        all_digits(s),
    ensures
        (s[0] == '0') == (number(s) < pow10((s.len() - 1) as nat)),
    decreases s.len(),
{
    if s.len() == 1 {
        assert(number(s.drop_last()) == 0);
        lemma_digit_char_value(s[0]);
    } else {
        let init = s.drop_last();
        lemma_leading_zero(init);
    }
}

/// The values of the first ten powers of ten.
pub proof fn lemma_pow10_values()
    ensures
        pow10(0) == 1,
        pow10(1) == 10,
        pow10(2) == 100,
        pow10(3) == 1_000,
        pow10(4) == 10_000,
        pow10(5) == 100_000,
        pow10(6) == 1_000_000,
        pow10(7) == 10_000_000,
        pow10(8) == 100_000_000,
        pow10(9) == 1_000_000_000,
        pow10(10) == 10_000_000_000,
{
}

/// The character of a digit below ten.
pub(crate) fn digit_of(d: u8) -> (c: char)
    requires
        d <= 9,
    ensures
        c == digit_char(d as int),
        is_digit(c),
        digit_value(c) == d,
{
    (48u8 + d) as char
}

/// Whether `c` is a digit.
pub(crate) fn is_decimal_digit(c: char) -> (r: bool)
    ensures
        r == is_digit(c),
{
    let u: u32 = c as u32;
    48 <= u && u <= 57
}

/// Appends `n` to `out` as `width` digits.
pub(crate) fn push_digits(out: &mut String, n: u64, width: u8)
    ensures
        final(out)@ == old(out)@ + digits(n as nat, width as nat),
    decreases width,
{
    if width > 0 {
        push_digits(out, n / 10, width - 1);
        let d: u8 = (n % 10) as u8;
        push_char(out, digit_of(d));
    }
}

/// How many digits stand in `s` from `pos` on, counted up to `limit`.
pub(crate) fn count_digits(s: &Vec<char>, pos: usize, limit: usize) -> (k: usize)
    requires
        pos <= s.len(),
    ensures
        k <= limit,
        pos + k <= s.len(),
        digit_run(s@.skip(pos as int)) <= limit ==> k == digit_run(s@.skip(pos as int)),
        digit_run(s@.skip(pos as int)) > limit ==> k == limit,
{
    let mut k: usize = 0;
    let ghost rest = s@.skip(pos as int);
    proof {
        lemma_digit_run_bounds(rest);
    }
    while k < limit && pos + k < s.len() && is_decimal_digit(s[pos + k])
        invariant
            pos <= s.len(),
            pos + k <= s.len(),
            k <= limit,
            rest == s@.skip(pos as int),
            all_digits(rest.take(k as int)),
        decreases s.len() - pos - k,
    {
        k += 1;
    }
    proof {
        let run = digit_run(rest);
        if pos + k < s.len() && !is_digit(s@[pos + k]) {
            lemma_digit_run_is(rest, k as nat);
        } else if pos + k == s.len() {
            lemma_digit_run_is(rest, k as nat);
        } else {
            // stopped at the limit: the run is at least as long
            if run < k {
                assert(is_digit(rest.take(k as int)[run as int]));
            }
        }
    }
    k
}

/// The value of the `width` digits of `s` from `pos` on.
pub(crate) fn read_digits(s: &Vec<char>, pos: usize, width: usize) -> (n: u64)
    requires
        width <= 18,
        pos + width <= s.len(),
        all_digits(s@.subrange(pos as int, pos + width)),
    ensures
        n == number(s@.subrange(pos as int, pos + width)),
        n < pow10(width as nat),
{
    let mut n: u64 = 0;
    let mut i: usize = 0;
    let ghost all = s@.subrange(pos as int, pos + width);
    proof {
        reveal_with_fuel(pow10, 19);
    }
    while i < width
        invariant
            i <= width <= 18,
            pos + width <= s.len(),
            all == s@.subrange(pos as int, pos + width),
            all_digits(all),
            n == number(all.take(i as int)),
            n < pow10(i as nat),
            pow10(18) == 1_000_000_000_000_000_000,
        decreases width - i,
    {
        let c = s[pos + i];
        assert(c == all[i as int]);
        proof {
            lemma_pow10_grows((i + 1) as nat, 18);
            assert(all.take(i + 1).drop_last() =~= all.take(i as int));
        }
        n = n * 10 + (c as u32 - 48) as u64;
        i += 1;
    }
    assert(all.take(width as int) =~= all);
    n
}

} // verus!
