//! Unsigned decimal text: what a run of digits is worth, and how a number is written.

use vstd::prelude::*;

verus! {

/// `byte` is one of `0` to `9`.
pub open spec fn is_digit(byte: u8) -> bool {
    48 <= byte <= 57
}

/// Every byte is a digit, and there is at least one.
pub open spec fn is_number(digits: Seq<u8>) -> bool {
    digits.len() > 0 && forall|i: int| 0 <= i < digits.len() ==> is_digit(#[trigger] digits[i])
}

/// The number that a run of digits is worth, most significant digit first.
pub open spec fn number_of(digits: Seq<u8>) -> nat
    decreases digits.len(),
{
    if digits.len() == 0 {
        0
    } else {
        number_of(digits.drop_last()) * 10 + (digits.last() - 48) as nat
    }
}

/// `text` without one leading plus sign.
pub open spec fn unsigned_part(text: Seq<u8>) -> Seq<u8> {
    if text.len() > 0 && text[0] == 43u8 {
        text.skip(1)
    } else {
        text
    }
}

/// The value of `text` as an unsigned machine number: digits after an optional
/// plus sign, no larger than `max`.
pub open spec fn parsed(text: Seq<u8>, max: nat) -> Option<nat> {
    let digits = unsigned_part(text);
    if is_number(digits) && number_of(digits) <= max {
        Some(number_of(digits))
    } else {
        None
    }
}

/// The shortest decimal text of `n`.
pub open spec fn digits_of(n: nat) -> Seq<u8>
    decreases n,
{
    if n < 10 {
        seq![(48 + n) as u8]
    } else {
        digits_of(n / 10).push((48 + n % 10) as u8)
    }
}

/// A longer run of digits is worth at least as much as its prefix.
proof fn lemma_prefix_is_less(digits: Seq<u8>, k: int)
    requires
        0 <= k <= digits.len(),
        forall|i: int| 0 <= i < digits.len() ==> is_digit(#[trigger] digits[i]),
    ensures
        number_of(digits.take(k)) <= number_of(digits),
    decreases digits.len() - k,
{
    if k == digits.len() {
        assert(digits.take(k) =~= digits);
    } else {
        lemma_prefix_is_less(digits, k + 1);
        assert(digits.take(k + 1).drop_last() =~= digits.take(k));
        assert(digits.take(k + 1).last() == digits[k]);
    }
}

/// Parse unsigned decimal text. `None` for empty text, a byte that is no digit,
/// and a value that does not fit.
pub fn parse_u64(value: &[u8]) -> (number: Option<u64>)
    ensures
        match parsed(value@, u64::MAX as nat) {
            Some(n) => number == Some(n as u64),
            None => number is None,
        },
{
    let len: usize = value.len();
    let mut i: usize = if len > 0 && value[0] == 43 {
        1
    } else {
        0
    };
    let ghost digits = unsigned_part(value@);
    let ghost from = i as int;
    assert(digits =~= value@.skip(from));
    if i == len {
        return None;
    }
    let mut total: u64 = 0;
    assert(digits.take(0) =~= Seq::<u8>::empty());
    while i < len
        invariant
            len == value@.len(),
            0 <= from <= i <= len,
            digits == value@.skip(from),
            digits == unsigned_part(value@),
            digits.len() == len - from,
            forall|k: int| 0 <= k < i - from ==> is_digit(#[trigger] digits[k]),
            total as nat == number_of(digits.take(i - from)),
        decreases len - i,
    {
        let byte: u8 = value[i];
        assert(digits[i - from] == byte);
        if byte < 48 || byte > 57 {
            assert(!is_number(digits));
            return None;
        }
        let digit: u64 = (byte - 48) as u64;
        let ghost next = digits.take(i - from + 1);
        assert(next.drop_last() =~= digits.take(i - from));
        assert(next.last() == byte);
        match total.checked_mul(10) {
            None => {
                proof {
                    if is_number(digits) {
                        lemma_prefix_is_less(digits, i - from + 1);
                    }
                }
                return None;
            },
            Some(scaled) => match scaled.checked_add(digit) {
                None => {
                    proof {
                        if is_number(digits) {
                            lemma_prefix_is_less(digits, i - from + 1);
                        }
                    }
                    return None;
                },
                Some(sum) => {
                    total = sum;
                },
            },
        }
        i = i + 1;
    }
    assert(digits.take(digits.len() as int) =~= digits);
    Some(total)
}

/// Parse unsigned decimal text. `None` for empty text, a byte that is no digit,
/// and a value that does not fit.
pub fn parse_usize(value: &[u8]) -> (number: Option<usize>)
    ensures
        match parsed(value@, usize::MAX as nat) {
            Some(n) => number == Some(n as usize),
            None => number is None,
        },
{
    match parse_u64(value) {
        None => None,
        Some(number) => if number <= usize::MAX as u64 {
            Some(number as usize)
        } else {
            None
        },
    }
}

/// The decimal text of a number is a run of digits worth that number.
pub proof fn lemma_digits_of(n: nat)
    ensures
        is_number(digits_of(n)),
        number_of(digits_of(n)) == n,
    decreases n,
{
    if n < 10 {
        let text = digits_of(n);
        assert(text.drop_last() =~= Seq::<u8>::empty());
        assert(number_of(text.drop_last()) == 0);
    } else {
        lemma_digits_of(n / 10);
        let text = digits_of(n);
        assert(text.drop_last() =~= digits_of(n / 10));
    }
}

/// Reading a number back from its own decimal text gives that number.
pub proof fn law_parse_inverts_digits(n: nat, max: nat)
    requires
        n <= max,
    ensures
        parsed(digits_of(n), max) == Some(n),
{
    lemma_digits_of(n);
    assert(is_digit(digits_of(n)[0]));
}

/// A plus sign in front of digits changes nothing, and one alone or doubled is no number.
pub proof fn law_plus_sign_does_not_count(digits: Seq<u8>, max: nat)
    ensures
        is_number(digits) ==> parsed(seq![43u8] + digits, max) == parsed(digits, max),
        parsed(seq![43u8], max) is None,
        parsed(seq![43u8, 43u8] + digits, max) is None,
{
    let signed = seq![43u8] + digits;
    assert(signed.skip(1) =~= digits);
    if is_number(digits) {
        assert(is_digit(digits[0]));
    }
    assert(seq![43u8].skip(1) =~= Seq::<u8>::empty());
    let twice = seq![43u8, 43u8] + digits;
    assert(twice.skip(1)[0] == 43u8);
    assert(!is_digit(twice.skip(1)[0]));
}

/// Text reads as a number by its places: digits behind others are worth what they are worth
/// alone, and those in front ten times as much for each of them. A zero in front counts for
/// nothing, however many there are.
pub proof fn law_value_is_positional(front: Seq<u8>, back: Seq<u8>)
    ensures
        number_of(front + back) == number_of(front) * vstd::arithmetic::power::pow(
            10,
            back.len(),
        ) + number_of(back),
        number_of(seq![48u8] + back) == number_of(back),
    decreases back.len(),
{
    broadcast use vstd::arithmetic::power::lemma_pow0;

    if back.len() == 0 {
        assert(front + back =~= front);
    } else {
        let rest = back.drop_last();
        law_value_is_positional(front, rest);
        assert((front + back).drop_last() =~= front + rest);
        vstd::arithmetic::power::lemma_pow_adds(10, rest.len(), 1);
        vstd::arithmetic::power::lemma_pow1(10);
        let power = vstd::arithmetic::power::pow(10, rest.len());
        let front_value = number_of(front) as int;
        assert((front_value * power) * 10 == front_value * (power * 10)) by (nonlinear_arith);
    }
    if back.len() == 0 {
        let zero = seq![48u8];
        assert(zero + back =~= zero);
        assert(zero.drop_last() =~= Seq::<u8>::empty());
        assert(number_of(zero.drop_last()) == 0);
    } else {
        assert((seq![48u8] + back).drop_last() =~= seq![48u8] + back.drop_last());
    }
}

/// Text is a number just when it is digits after an optional plus sign and fits: one byte
/// that is no digit anywhere, or no digit at all, makes it none.
pub proof fn law_only_digits_are_a_number(text: Seq<u8>, max: nat, at: int)
    requires
        0 <= at < text.len(),
        text[at] < 48 || text[at] > 57,
        at > 0 || text[0] != 43 || text.len() == 1,
    ensures
        parsed(text, max) is None,
        parsed(Seq::<u8>::empty(), max) is None,
{
    let digits = unsigned_part(text);
    if text[0] == 43u8 {
        if at > 0 {
            assert(digits[at - 1] == text[at]);
        }
    } else {
        assert(digits[at] == text[at]);
    }
}

/// Write the decimal text of `n` behind `out`.
pub fn push_decimal(out: &mut Vec<u8>, n: usize)
    ensures
        final(out)@ == old(out)@ + digits_of(n as nat),
    decreases n,
{
    if n >= 10 {
        push_decimal(out, n / 10);
    }
    out.push(48 + (n % 10) as u8);
}

/// The decimal text of `n`.
pub fn decimal(n: usize) -> (text: Vec<u8>)
    ensures
        text@ == digits_of(n as nat),
{
    let mut text: Vec<u8> = Vec::new();
    push_decimal(&mut text, n);
    text
}

/// Decimal text has at most as many digits as the number has, and at least one.
pub proof fn lemma_digits_len(n: nat)
    ensures
        1 <= digits_of(n).len() <= n + 1,
    decreases n,
{
    if n >= 10 {
        lemma_digits_len(n / 10);
    }
}

/// A machine number has at most 20 digits.
pub proof fn lemma_digits_short(n: nat)
    requires
        n <= u64::MAX,
    ensures
        1 <= digits_of(n).len() <= 20,
        n < 10_000 ==> digits_of(n).len() <= 4,
{
    reveal_with_fuel(digits_of, 21);
}

} // verus!
