//! Numbers written out as digits.

use vstd::prelude::*;
use vstd::string::*;

verus! {

/// The character for one digit, in lower case.
pub open spec fn digit_char(d: nat) -> char {
    if d < 10 {
        (48 + d) as char
    } else {
        (87 + d) as char
    }
}

/// A number in the given base, without leading zeros. Zero is one digit.
pub open spec fn digits(n: nat, base: nat) -> Seq<char>
    decreases n,
{
    if base < 2 || n < base {
        seq![digit_char(n)]
    } else {
        proof {
            assert(n / base < n) by (nonlinear_arith)
                requires
                    base >= 2,
                    n >= base,
            ;
        }
        digits(n / base, base).push(digit_char(n % base))
    }
}

/// The last `width` digits of a number in the given base, zeros in front.
pub open spec fn padded_digits(n: nat, base: nat, width: nat) -> Seq<char>
    decreases width,
{
    if width == 0 {
        Seq::empty()
    } else {
        padded_digits(n / base, base, (width - 1) as nat).push(digit_char(n % base))
    }
}

/// `base` to the power `exp`.
pub open spec fn power(base: nat, exp: nat) -> nat
    decreases exp,
{
    if exp == 0 {
        1
    } else {
        base * power(base, (exp - 1) as nat)
    }
}

/// Writing a number is writing what is left of its low `width` digits,
/// followed by those digits with their zeros kept.
pub proof fn lemma_digits_split(high: nat, low: nat, base: nat, width: nat)
    requires
        base >= 2,
        high > 0,
        low < power(base, width),
    ensures
        digits(high * power(base, width) + low, base) == digits(high, base) + padded_digits(
            low,
            base,
            width,
        ),
    decreases width,
{
    let p = power(base, width);
    if width == 0 {
        assert(high * p == high) by (nonlinear_arith)
            requires
                p == 1,
        ;
        assert(digits(high, base) + padded_digits(low, base, width) =~= digits(high, base));
    } else {
        let w = (width - 1) as nat;
        let q = power(base, w);
        let n = high * p + low;
        assert(p == base * q);
        assert(low / base < q) by (nonlinear_arith)
            requires
                low < base * q,
                base >= 2,
        ;
        assert(n == base * (high * q) + low) by (nonlinear_arith)
            requires
                n == high * p + low,
                p == base * q,
        ;
        assert(n / base == high * q + low / base && n % base == low % base) by {
            vstd::arithmetic::div_mod::lemma_hoist_over_denominator(
                low as int,
                (high * q) as int,
                base,
            );
            vstd::arithmetic::div_mod::lemma_mod_multiples_vanish(
                (high * q) as int,
                low as int,
                base as int,
            );
            assert((high * q) * base == base * (high * q)) by (nonlinear_arith);
        }
        lemma_power_positive(base, w);
        assert(n >= base) by (nonlinear_arith)
            requires
                n == base * (high * q) + low,
                high > 0,
                q > 0,
        ;
        lemma_digits_split(high, low / base, base, w);
        assert(digits(n, base) == digits(n / base, base).push(digit_char(n % base)));
        assert(digits(high, base) + padded_digits(low, base, width) =~= (digits(high, base)
            + padded_digits(low / base, base, w)).push(digit_char(low % base)));
    }
}

pub proof fn lemma_power_positive(base: nat, exp: nat)
    requires
        base > 0,
    ensures
        power(base, exp) > 0,
    decreases exp,
{
    if exp > 0 {
        lemma_power_positive(base, (exp - 1) as nat);
        assert(base * power(base, (exp - 1) as nat) > 0) by (nonlinear_arith)
            requires
                base > 0,
                power(base, (exp - 1) as nat) > 0,
        ;
    }
}

/// The one-character text of a digit.
pub(crate) fn digit_text(d: u8) -> (out: &'static str)
    requires
        d < 16,
    ensures
        out@ == seq![digit_char(d as nat)],
{
    proof {
        reveal_strlit("0");
        reveal_strlit("1");
        reveal_strlit("2");
        reveal_strlit("3");
        reveal_strlit("4");
        reveal_strlit("5");
        reveal_strlit("6");
        reveal_strlit("7");
        reveal_strlit("8");
        reveal_strlit("9");
        reveal_strlit("a");
        reveal_strlit("b");
        reveal_strlit("c");
        reveal_strlit("d");
        reveal_strlit("e");
        reveal_strlit("f");
    }
    let out = match d {
        0 => "0",
        1 => "1",
        2 => "2",
        3 => "3",
        4 => "4",
        5 => "5",
        6 => "6",
        7 => "7",
        8 => "8",
        9 => "9",
        10 => "a",
        11 => "b",
        12 => "c",
        13 => "d",
        14 => "e",
        _ => "f",
    };
    assert(out@ =~= seq![digit_char(d as nat)]);
    out
}

/// Append the low `width` decimal digits of `n`, zeros in front.
pub(crate) fn push_padded(out: &mut String, n: u64, width: usize)
    ensures
        final(out)@ == old(out)@ + padded_digits(n as nat, 10, width as nat),
    decreases width,
{
    if width > 0 {
        push_padded(out, n / 10, width - 1);
        out.append(digit_text((n % 10) as u8));
    }
    assert(out@ =~= old(out)@ + padded_digits(n as nat, 10, width as nat));
}

/// Append `n` in decimal.
pub(crate) fn push_decimal(out: &mut String, n: u64)
    ensures
        final(out)@ == old(out)@ + digits(n as nat, 10),
    decreases n,
{
    if n >= 10 {
        push_decimal(out, n / 10);
    }
    out.append(digit_text((n % 10) as u8));
    assert(out@ =~= old(out)@ + digits(n as nat, 10));
}

/// The value of a digit, of either case, if it is one of the base.
pub open spec fn digit_value(c: char, base: nat) -> Option<nat> {
    let value: nat = if '0' <= c <= '9' {
        (c as u32 - '0' as u32) as nat
    } else if 'a' <= c <= 'z' {
        (c as u32 - 'a' as u32 + 10) as nat
    } else if 'A' <= c <= 'Z' {
        (c as u32 - 'A' as u32 + 10) as nat
    } else {
        base
    };
    if value < base {
        Some(value)
    } else {
        None
    }
}

/// The number some digits stand for. `None` where one of them is no digit of
/// the base.
pub open spec fn digits_value(text: Seq<char>, base: nat) -> Option<nat>
    decreases text.len(),
{
    if text.len() == 0 {
        Some(0)
    } else {
        match (digits_value(text.drop_last(), base), digit_value(text.last(), base)) {
            (Some(front), Some(digit)) => Some(front * base + digit),
            _ => None,
        }
    }
}

/// The text without one leading plus sign.
pub open spec fn without_plus(text: Seq<char>) -> Seq<char> {
    if text.len() > 0 && text[0] == '+' {
        text.skip(1)
    } else {
        text
    }
}

/// The number written in `text`: at least one digit, a plus sign in front at
/// most, and no more than `max`.
pub open spec fn unsigned_value(text: Seq<char>, base: nat, max: nat) -> Option<nat> {
    let digits = without_plus(text);
    if digits.len() == 0 {
        None
    } else {
        match digits_value(digits, base) {
            Some(value) => if value <= max {
                Some(value)
            } else {
                None
            },
            None => None,
        }
    }
}

/// Digits never stand for less than the digits in front of them do.
proof fn lemma_digits_value_grows(text: Seq<char>, base: nat, len: int)
    requires
        base > 0,
        0 <= len <= text.len(),
        digits_value(text, base) is Some,
    ensures
        digits_value(text.take(len), base) is Some,
        digits_value(text.take(len), base)->Some_0 <= digits_value(text, base)->Some_0,
    decreases text.len(),
{
    if len == text.len() {
        assert(text.take(len) =~= text);
    } else {
        lemma_digits_value_grows(text.drop_last(), base, len);
        assert(text.drop_last().take(len) =~= text.take(len));
        let front = digits_value(text.drop_last(), base)->Some_0;
        assert(front <= front * base) by (nonlinear_arith)
            requires
                base > 0,
        ;
    }
}

/// The characters of a text.
pub(crate) fn chars_of(text: &str) -> (out: Vec<char>)
    ensures
        out@ == text@,
{
    let mut out: Vec<char> = Vec::new();
    for c in iter: text.chars()
        invariant
            out@ =~= iter.seq().take(iter.index() as int),
            iter.seq() == text@,
    {
        out.push(c);
    }
    out
}

/// The value of a digit.
fn read_digit(c: char, base: u32) -> (out: Option<u32>)
    requires
        base <= 36,
    ensures
        match out {
            Some(digit) => digit_value(c, base as nat) == Some(digit as nat),
            None => digit_value(c, base as nat) is None,
        },
{
    let value: u32 = if '0' <= c && c <= '9' {
        c as u32 - '0' as u32
    } else if 'a' <= c && c <= 'z' {
        c as u32 - 'a' as u32 + 10
    } else if 'A' <= c && c <= 'Z' {
        c as u32 - 'A' as u32 + 10
    } else {
        base
    };
    if value < base {
        Some(value)
    } else {
        None
    }
}

/// Read the number written in `text`.
pub(crate) fn parse_unsigned(text: &str, base: u32, max: u128) -> (out: Option<u128>)
    requires
        0 < base <= 36,
    ensures
        match out {
            Some(value) => unsigned_value(text@, base as nat, max as nat) == Some(value as nat),
            None => unsigned_value(text@, base as nat, max as nat) is None,
        },
{
    let chars = chars_of(text);
    let start: usize = if chars.len() > 0 && chars[0] == '+' {
        1
    } else {
        0
    };
    let ghost digits = without_plus(text@);
    if chars.len() == start {
        return None;
    }
    assert(digits =~= chars@.skip(start as int));
    let mut value: u128 = 0;
    let mut i: usize = start;
    while i < chars.len()
        invariant
            0 < base <= 36,
            start <= i <= chars@.len(),
            chars@.len() > start,
            chars@ == text@,
            digits == without_plus(text@),
            digits == chars@.skip(start as int),
            digits_value(digits.take(i - start), base as nat) == Some(value as nat),
            value <= max,
        decreases chars@.len() - i,
    {
        let ghost upto = digits.take(i - start + 1);
        proof {
            assert(upto.drop_last() =~= digits.take(i - start));
            assert(upto.last() == chars@[i as int]);
            if digits_value(digits, base as nat) is Some {
                lemma_digits_value_grows(digits, base as nat, i - start + 1);
            }
            assert(value * base >= 0) by (nonlinear_arith)
                requires
                    value >= 0,
                    base >= 0,
            ;
        }
        let digit = match read_digit(chars[i], base) {
            Some(digit) => digit,
            None => {
                return None;
            },
        };
        let scaled = match value.checked_mul(base as u128) {
            Some(scaled) => scaled,
            None => {
                return None;
            },
        };
        let next = match scaled.checked_add(digit as u128) {
            Some(next) => next,
            None => {
                return None;
            },
        };
        if next > max {
            return None;
        }
        value = next;
        i += 1;
    }
    assert(digits.take(i - start) =~= digits);
    Some(value)
}

/// A number that was written out reads back as that number.
pub proof fn digits_read_back(n: nat, base: nat)
    requires
        2 <= base <= 16,
    ensures
        digits_value(digits(n, base), base) == Some(n),
        unsigned_value(digits(n, base), base, n) == Some(n),
    decreases n,
{
    let text = digits(n, base);
    lemma_digit_reads_back(n % base, base);
    if n < base {
        assert(n % base == n) by (nonlinear_arith)
            requires
                n < base,
        ;
        assert(text.drop_last() =~= Seq::empty());
        assert(digits_value(text.drop_last(), base) == Some(0nat));
        assert(text.last() == digit_char(n));
        assert(0 * base == 0) by (nonlinear_arith);
    } else {
        assert(n / base < n) by (nonlinear_arith)
            requires
                base >= 2,
                n >= base,
        ;
        digits_read_back(n / base, base);
        assert(text.drop_last() =~= digits(n / base, base));
        assert(text.last() == digit_char(n % base));
        vstd::arithmetic::div_mod::lemma_fundamental_div_mod(n as int, base as int);
        assert((n / base) * base == base * (n / base)) by (nonlinear_arith);
    }
    lemma_digits_start(n, base);
}

proof fn lemma_digit_reads_back(d: nat, base: nat)
    requires
        d < base <= 16,
    ensures
        digit_value(digit_char(d), base) == Some(d),
        digit_char(d) != '+',
{
}

proof fn lemma_digits_start(n: nat, base: nat)
    requires
        2 <= base <= 16,
    ensures
        digits(n, base).len() > 0,
        digits(n, base)[0] != '+',
    decreases n,
{
    if n < base {
        lemma_digit_reads_back(n, base);
    } else {
        assert(n / base < n) by (nonlinear_arith)
            requires
                base >= 2,
                n >= base,
        ;
        lemma_digits_start(n / base, base);
    }
}

/// What the digits are worth: ten figures, then letters, of either case alike,
/// and never as much as the base.
pub proof fn digits_have_their_worth(c: char, base: nat)
    requires
        base <= 36,
    ensures
        '0' <= c <= '9' && c as nat - 48 < base ==> digit_value(c, base) == Some(
            (c as nat - 48) as nat,
        ),
        'a' <= c <= 'z' && c as nat - 87 < base ==> digit_value(c, base) == Some(
            (c as nat - 87) as nat,
        ),
        'A' <= c <= 'Z' && c as nat - 55 < base ==> digit_value(c, base) == Some(
            (c as nat - 55) as nat,
        ),
        digit_value(c, base) matches Some(value) ==> value < base && ('0' <= c <= '9' || 'a' <= c
            <= 'z' || 'A' <= c <= 'Z'),
{
}

/// Numbers are read digit by digit: one more digit behind the others multiplies
/// what they stand for by the base and adds what it is worth. What is no digit
/// of the base, or takes the number beyond the maximum, makes it no number. One
/// plus sign in front does not count, and without a digit there is no number.
pub proof fn numbers_are_read_digit_by_digit(text: Seq<char>, c: char, base: nat, max: nat)
    requires
        2 <= base <= 36,
        c != '+',
        text.len() == 0 || text[0] != '+',
    ensures
        unsigned_value(Seq::empty(), base, max) is None,
        unsigned_value(seq!['+'], base, max) is None,
        text.len() > 0 ==> unsigned_value(seq!['+'] + text, base, max) == unsigned_value(
            text,
            base,
            max,
        ),
        unsigned_value(seq!['+', '+'] + text, base, max) is None,
        ({
            let front = unsigned_value(text, base, max);
            let all = unsigned_value(text.push(c), base, max);
            match digit_value(c, base) {
                None => all is None,
                Some(worth) => if text.len() == 0 {
                    all == if worth <= max {
                        Some(worth)
                    } else {
                        None
                    }
                } else {
                    match front {
                        Some(value) => all == if value * base + worth <= max {
                            Some(value * base + worth)
                        } else {
                            None
                        },
                        None => all is None,
                    }
                },
            }
        }),
{
    assert((seq!['+'] + text).skip(1) =~= text);
    assert(seq!['+'].skip(1) =~= Seq::empty());
    let twice = seq!['+', '+'] + text;
    let rest = twice.skip(1);
    assert(rest[0] == '+');
    assert(digits_value(rest, base) is None) by {
        lemma_bad_digit(rest, base, 0);
    }
    assert(text.push(c).drop_last() =~= text);
    assert(without_plus(text.push(c)) =~= text.push(c));
    if let Some(value) = digits_value(text, base) {
        assert(value * base >= value) by (nonlinear_arith)
            requires
                base >= 1,
        ;
    }
    if text.len() == 0 {
        assert(0 * base == 0) by (nonlinear_arith);
    }
}

proof fn lemma_bad_digit(text: Seq<char>, base: nat, at: int)
    requires
        0 <= at < text.len(),
        digit_value(text[at], base) is None,
    ensures
        digits_value(text, base) is None,
    decreases text.len(),
{
    if at < text.len() - 1 {
        lemma_bad_digit(text.drop_last(), base, at);
    }
}

/// A number is written without needless zeros, in figures and lower-case
/// letters.
pub proof fn numbers_are_written_plainly(n: nat, base: nat)
    requires
        2 <= base <= 16,
    ensures
        digits(n, base).len() > 0,
        n > 0 ==> digits(n, base)[0] != '0',
        n == 0 ==> digits(n, base).len() == 1,
        forall|i: int|
            0 <= i < digits(n, base).len() ==> '0' <= #[trigger] digits(n, base)[i] <= '9' || 'a'
                <= digits(n, base)[i] <= 'f',
    decreases n,
{
    if n >= base {
        assert(n / base < n && n / base > 0) by (nonlinear_arith)
            requires
                base >= 2,
                n >= base,
        ;
        assert(n % base < base) by (nonlinear_arith)
            requires
                base >= 2,
        ;
        numbers_are_written_plainly(n / base, base);
        let front = digits(n / base, base);
        assert(digits(n, base) == front.push(digit_char(n % base)));
        assert forall|i: int| 0 <= i < digits(n, base).len() implies '0' <= #[trigger] digits(
            n,
            base,
        )[i] <= '9' || 'a' <= digits(n, base)[i] <= 'f' by {
            if i < front.len() {
                assert(digits(n, base)[i] == front[i]);
            }
        }
    }
}

/// A form with two blanks filled in.
pub open spec fn filled(
    front: Seq<char>,
    a: Seq<char>,
    middle: Seq<char>,
    b: Seq<char>,
    back: Seq<char>,
) -> Seq<char> {
    front + a + middle + b + back
}

/// Whether two texts are one form, with `a` and `b` filled in on the one and
/// `c` and `d` on the other.
pub open spec fn same_form(
    text: Seq<char>,
    a: Seq<char>,
    b: Seq<char>,
    other: Seq<char>,
    c: Seq<char>,
    d: Seq<char>,
) -> bool {
    exists|front: Seq<char>, middle: Seq<char>, back: Seq<char>|
        text == #[trigger] filled(front, a, middle, b, back) && other == filled(
            front,
            c,
            middle,
            d,
            back,
        )
}

/// Texts made from one form have it.
pub proof fn lemma_same_form(
    front: Seq<char>,
    middle: Seq<char>,
    back: Seq<char>,
    a: Seq<char>,
    b: Seq<char>,
    c: Seq<char>,
    d: Seq<char>,
)
    ensures
        same_form(
            front + a + middle + b + back,
            a,
            b,
            front + c + middle + d + back,
            c,
            d,
        ),
{
    assert(filled(front, a, middle, b, back) == front + a + middle + b + back);
    assert(filled(front, c, middle, d, back) == front + c + middle + d + back);
}

} // verus!
