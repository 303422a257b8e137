//! Reading numbers from text: signs, runs of digits, a decimal point.

use vstd::prelude::*;
use crate::text::{
    all_digits, decimal, digit_char, digit_value, digits_value, is_digit, one_decimal, pow10,
};

verus! {

/// The index of the first character of `s` that is `wanted`; the length of `s` if none is.
pub open spec fn first_index(s: Seq<char>, wanted: spec_fn(char) -> bool) -> int
    decreases s.len(),
{
    if s.len() == 0 || wanted(s[0]) {
        0
    } else {
        1 + first_index(s.drop_first(), wanted)
    }
}

/// `first_index` is the one index before which nothing is wanted and at which, if it lies in
/// `s`, the character is.
pub proof fn lemma_first_index(s: Seq<char>, wanted: spec_fn(char) -> bool, i: int)
    requires
        0 <= i <= s.len(),
        forall|j: int| 0 <= j < i ==> !wanted(#[trigger] s[j]),
        i < s.len() ==> wanted(s[i]),
    ensures
        first_index(s, wanted) == i,
    decreases s.len(),
{
    if s.len() == 0 || wanted(s[0]) {
        if i > 0 {
            assert(!wanted(s[0]));
        }
    } else {
        let rest = s.drop_first();
        assert forall|j: int| 0 <= j < i - 1 implies !wanted(#[trigger] rest[j]) by {
            assert(rest[j] == s[j + 1]);
        }
        lemma_first_index(rest, wanted, i - 1);
    }
}

/// What `first_index` finds: it lies in `s` or at its end, nothing before it is wanted, and
/// the character at it is.
pub proof fn lemma_first_index_found(s: Seq<char>, wanted: spec_fn(char) -> bool)
    ensures
        0 <= first_index(s, wanted) <= s.len(),
        forall|j: int| 0 <= j < first_index(s, wanted) ==> !wanted(#[trigger] s[j]),
        first_index(s, wanted) < s.len() ==> wanted(s[first_index(s, wanted)]),
    decreases s.len(),
{
    if s.len() == 0 || wanted(s[0]) {
    } else {
        let rest = s.drop_first();
        lemma_first_index_found(rest, wanted);
        assert forall|j: int| 0 <= j < first_index(s, wanted) implies !wanted(#[trigger] s[j]) by {
            if j > 0 {
                assert(s[j] == rest[j - 1]);
            }
        }
    }
}

/// Whether `c` is `+` or `-`.
pub open spec fn is_sign(c: char) -> bool {
    c == '+' || c == '-'
}

/// Whether `s` starts with a sign.
pub open spec fn is_signed(s: Seq<char>) -> bool {
    s.len() > 0 && is_sign(s[0])
}

/// `s` without the sign that it may start with.
pub open spec fn unsigned_part(s: Seq<char>) -> Seq<char> {
    if is_signed(s) {
        s.drop_first()
    } else {
        s
    }
}

/// Whether `s` starts with `-`.
pub open spec fn is_negative(s: Seq<char>) -> bool {
    s.len() > 0 && s[0] == '-'
}

/// A whole number read from text: an optional sign, then one digit or more and nothing else.
/// `None` for any other text.
pub open spec fn read_integer(s: Seq<char>) -> Option<int> {
    let digits = unsigned_part(s);
    if digits.len() > 0 && all_digits(digits) {
        if is_negative(s) {
            Some(-(digits_value(digits) as int))
        } else {
            Some(digits_value(digits) as int)
        }
    } else {
        None
    }
}

/// A decimal number as it stands in a text: its sign and the digits on either side of the
/// point.
pub struct Number {
    pub negative: bool,
    pub whole: Seq<char>,
    pub fraction: Seq<char>,
}

/// A decimal number read from text: an optional sign, digits, and optionally a point and
/// more digits, with a digit on at least one side of the point. `None` for any other text.
pub open spec fn read_number(s: Seq<char>) -> Option<Number> {
    let body = unsigned_part(s);
    let point = first_index(body, |c: char| c == '.');
    let whole = body.take(point);
    let fraction = if point < body.len() {
        body.skip(point + 1)
    } else {
        Seq::empty()
    };
    if all_digits(whole) && all_digits(fraction) && whole.len() + fraction.len() > 0 {
        Some(Number { negative: is_negative(s), whole, fraction })
    } else {
        None
    }
}

/// The number without its sign, times 10 to the power `power`, rounded down.
pub open spec fn scaled(number: Number, power: nat) -> nat {
    digits_value(number.whole + number.fraction) * pow10(power) / pow10(number.fraction.len())
}

/// Powers of ten are positive.
pub proof fn lemma_pow10_positive(e: nat)
    ensures
        pow10(e) > 0,
    decreases e,
{
    if e > 0 {
        lemma_pow10_positive((e - 1) as nat);
    }
}

/// A larger exponent gives a power of ten that is no smaller.
pub proof fn lemma_pow10_grows(a: nat, b: nat)
    requires
        a <= b,
    ensures
        pow10(a) <= pow10(b),
    decreases b,
{
    if a < b {
        lemma_pow10_grows(a, (b - 1) as nat);
    }
}

/// Powers of ten multiply as their exponents add.
pub proof fn lemma_pow10_add(a: nat, b: nat)
    ensures
        pow10(a + b) == pow10(a) * pow10(b),
    decreases a,
{
    if a == 0 {
        assert(pow10(0) == 1);
        assert(1 * pow10(b) == pow10(b)) by (nonlinear_arith);
    } else {
        lemma_pow10_add((a - 1) as nat, b);
        let x = pow10((a - 1) as nat);
        let y = pow10(b);
        assert(pow10(a + b) == 10 * pow10((a + b - 1) as nat));
        assert(10 * (x * y) == (10 * x) * y) by (nonlinear_arith);
    }
}

/// The value of two runs of digits written one after the other.
pub proof fn lemma_digits_value_concat(a: Seq<char>, b: Seq<char>)
    ensures
        digits_value(a + b) == digits_value(a) * pow10(b.len()) + digits_value(b),
    decreases b.len(),
{
    if b.len() == 0 {
        assert(a + b =~= a);
        assert(digits_value(a) * 1 == digits_value(a)) by (nonlinear_arith);
    } else {
        let front = b.drop_last();
        assert((a + b).drop_last() =~= a + front);
        assert((a + b).last() == b.last());
        lemma_digits_value_concat(a, front);
        let x = digits_value(a);
        let p = pow10(front.len());
        assert(pow10(b.len()) == 10 * p);
        assert(10 * (x * p + digits_value(front)) == x * (10 * p) + 10 * digits_value(front))
            by (nonlinear_arith);
    }
}

/// A run of `n` digits writes a number below 10 to the power `n`.
pub proof fn lemma_digits_value_bound(digits: Seq<char>)
    requires
        all_digits(digits),
    ensures
        digits_value(digits) < pow10(digits.len()),
    decreases digits.len(),
{
    if digits.len() > 0 {
        let front = digits.drop_last();
        assert forall|i: int| 0 <= i < front.len() implies is_digit(#[trigger] front[i]) by {
            assert(front[i] == digits[i]);
        }
        lemma_digits_value_bound(front);
        assert(is_digit(digits.last()));
        assert(digit_value(digits.last()) <= 9);
    }
}

/// What is written in base ten is read back as the same number: `decimal` writes digits
/// only, at least one, and they write `n`.
pub proof fn lemma_decimal_read_back(n: nat)
    ensures
        decimal(n).len() > 0,
        all_digits(decimal(n)),
        digits_value(decimal(n)) == n,
    decreases n,
{
    assert(is_digit(digit_char(n % 10)) && digit_value(digit_char(n % 10)) == n % 10);
    if n < 10 {
        assert(decimal(n).drop_last() =~= Seq::<char>::empty());
        assert(digits_value(decimal(n).drop_last()) == 0);
    } else {
        lemma_decimal_read_back(n / 10);
        assert(decimal(n).drop_last() =~= decimal(n / 10));
    }
}

/// A number written in base ten is read as that whole number, without sign or fraction.
pub proof fn lemma_read_decimal(n: nat)
    ensures
        read_number(decimal(n)) == Some(
            Number { negative: false, whole: decimal(n), fraction: Seq::empty() },
        ),
{
    let text = decimal(n);
    lemma_decimal_read_back(n);
    assert(is_digit(text[0]));
    lemma_first_index(text, |c: char| c == '.', text.len() as int);
    assert(text.take(text.len() as int) =~= text);
}

/// A number of tenths written with one decimal place is read as the whole part before the
/// point and one digit behind it.
pub proof fn lemma_read_one_decimal(tenths: nat)
    ensures
        read_number(one_decimal(tenths)) == Some(
            Number {
                negative: false,
                whole: decimal(tenths / 10),
                fraction: seq![digit_char(tenths % 10)],
            },
        ),
        digits_value(decimal(tenths / 10) + seq![digit_char(tenths % 10)]) == tenths,
{
    let whole = decimal(tenths / 10);
    let last = digit_char(tenths % 10);
    let text = one_decimal(tenths);
    lemma_decimal_read_back(tenths / 10);
    assert(is_digit(last) && digit_value(last) == tenths % 10);
    assert(text[0] == whole[0]);
    assert(is_digit(text[0]));
    assert forall|j: int| 0 <= j < whole.len() implies !(|c: char| c == '.')(
        #[trigger] text[j],
    ) by {
        assert(text[j] == whole[j]);
    }
    lemma_first_index(text, |c: char| c == '.', whole.len() as int);
    assert(text.take(whole.len() as int) =~= whole);
    assert(text.skip(whole.len() as int + 1) =~= seq![last]);
    assert(all_digits(seq![last]));
    let both = whole + seq![last];
    assert(both.drop_last() =~= whole);
    assert(both.last() == last);
}

/// A decimal fraction times a power of ten, rounded down: the digits that the power moves in
/// front of the point, followed by zeros where the fraction has too few.
pub proof fn lemma_fraction_scaled(fraction: Seq<char>, power: nat)
    requires
        all_digits(fraction),
    ensures
        fraction.len() <= power ==> digits_value(fraction) * pow10(power) / pow10(fraction.len())
            == digits_value(fraction) * pow10((power - fraction.len()) as nat),
        fraction.len() > power ==> digits_value(fraction) * pow10(power) / pow10(fraction.len())
            == digits_value(fraction.take(power as int)),
{
    let k = fraction.len();
    let f = digits_value(fraction) as int;
    let p = pow10(k) as int;
    let s = pow10(power) as int;
    lemma_pow10_positive(k);
    lemma_pow10_positive(power);
    if k <= power {
        let rest = pow10((power - k) as nat) as int;
        lemma_pow10_add((power - k) as nat, k);
        assert(f * s == (f * rest) * p + 0) by (nonlinear_arith)
            requires
                s == rest * p,
        ;
        vstd::arithmetic::div_mod::lemma_fundamental_div_mod_converse(f * s, p, f * rest, 0);
    } else {
        let head = fraction.take(power as int);
        let tail = fraction.skip(power as int);
        assert(fraction =~= head + tail);
        lemma_digits_value_concat(head, tail);
        assert forall|i: int| 0 <= i < tail.len() implies is_digit(#[trigger] tail[i]) by {
            assert(tail[i] == fraction[i + power]);
        }
        lemma_digits_value_bound(tail);
        let h = digits_value(head) as int;
        let l = digits_value(tail) as int;
        let q = pow10(tail.len()) as int;
        lemma_pow10_add((k - power) as nat, power);
        assert(tail.len() == k - power);
        assert(p == q * s);
        assert(f * s == h * p + l * s && 0 <= l * s < p) by (nonlinear_arith)
            requires
                f == h * q + l,
                p == q * s,
                0 <= l < q,
                s > 0,
        ;
        vstd::arithmetic::div_mod::lemma_fundamental_div_mod_converse(f * s, p, h, l * s);
    }
}

/// A decimal number times a power of ten, rounded down, in two parts: what stands in front of
/// the point, and the fraction.
pub proof fn lemma_scaled_parts(number: Number, power: nat)
    requires
        all_digits(number.fraction),
    ensures
        scaled(number, power) == digits_value(number.whole) * pow10(power) + digits_value(
            number.fraction,
        ) * pow10(power) / pow10(number.fraction.len()),
{
    let w = digits_value(number.whole) as int;
    let f = digits_value(number.fraction) as int;
    let p = pow10(number.fraction.len()) as int;
    let s = pow10(power) as int;
    lemma_pow10_positive(number.fraction.len());
    lemma_digits_value_concat(number.whole, number.fraction);
    let q = (f * s) / p;
    let r = (f * s) % p;
    vstd::arithmetic::div_mod::lemma_fundamental_div_mod(f * s, p);
    vstd::arithmetic::div_mod::lemma_mod_bound(f * s, p);
    assert((w * p + f) * s == (w * s + q) * p + r) by (nonlinear_arith)
        requires
            f * s == p * q + r,
    ;
    vstd::arithmetic::div_mod::lemma_fundamental_div_mod_converse((w * p + f) * s, p, w * s + q, r);
}

/// The characters of a text.
pub(crate) fn to_chars(text: &str) -> (chars: Vec<char>)
    ensures
        chars@ == text@,
{
    let mut chars: Vec<char> = Vec::new();
    for c in it: text.chars()
        invariant
            it.seq() == text@,
            chars@ == text@.take(it.index() as int),
    {
        chars.push(c);
        assert(chars@ =~= text@.take(it.index() + 1));
    }
    assert(text@.take(text@.len() as int) =~= text@);
    chars
}

/// The characters from `from` up to `to` as a text.
pub(crate) fn text_of(chars: &Vec<char>, from: usize, to: usize) -> (text: String)
    requires
        from <= to <= chars@.len(),
    ensures
        text@ == chars@.subrange(from as int, to as int),
{
    let mut text = String::new();
    let mut i = from;
    while i < to
        invariant
            from <= i <= to <= chars@.len(),
            text@ == chars@.subrange(from as int, i as int),
        decreases to - i,
    {
        text.push(chars[i]);
        i += 1;
        assert(text@ =~= chars@.subrange(from as int, i as int));
    }
    text
}

/// Whether `c` is one of `0` to `9`.
pub(crate) fn is_digit_char(c: char) -> (yes: bool)
    ensures
        yes == is_digit(c),
{
    '0' <= c && c <= '9'
}

/// The smaller of two numbers.
pub open spec fn least(a: nat, b: nat) -> nat {
    if a <= b {
        a
    } else {
        b
    }
}

/// Reads digits from `from` on, up to `end` at most. Returns where the digits stop, and the
/// number they write, or `u64::MAX` if that is less.
pub(crate) fn scan_digits(chars: &Vec<char>, from: usize, end: usize) -> (found: (usize, u64))
    requires
        from <= end <= chars@.len(),
    ensures
        from <= found.0 <= end,
        all_digits(chars@.subrange(from as int, found.0 as int)),
        found.0 < end ==> !is_digit(chars@[found.0 as int]),
        found.1 == least(
            digits_value(chars@.subrange(from as int, found.0 as int)),
            u64::MAX as nat,
        ),
{
    let mut i = from;
    let mut value: u64 = 0;
    assert(chars@.subrange(from as int, from as int) =~= Seq::<char>::empty());
    while i < end && is_digit_char(chars[i])
        invariant
            from <= i <= end <= chars@.len(),
            all_digits(chars@.subrange(from as int, i as int)),
            value == least(digits_value(chars@.subrange(from as int, i as int)), u64::MAX as nat),
        decreases end - i,
    {
        let digit = (chars[i] as u32 - 48) as u128;
        let wide = 10 * (value as u128) + digit;
        proof {
            let run = chars@.subrange(from as int, i as int + 1);
            assert(run.drop_last() =~= chars@.subrange(from as int, i as int));
            assert(run.last() == chars@[i as int]);
            assert(digit == digit_value(chars@[i as int]));
            assert forall|j: int| 0 <= j < run.len() implies is_digit(#[trigger] run[j]) by {
                if j < run.len() - 1 {
                    assert(run[j] == chars@.subrange(from as int, i as int)[j]);
                }
            }
        }
        value = if wide > u64::MAX as u128 {
            u64::MAX
        } else {
            wide as u64
        };
        i += 1;
    }
    (i, value)
}

/// 10 to the power `e`.
pub(crate) fn ten_to(e: u32) -> (power: u64)
    requires
        e <= 9,
    ensures
        power == pow10(e as nat),
        power <= 1_000_000_000,
{
    let mut power: u64 = 1;
    let mut i: u32 = 0;
    assert(pow10(9) == 1_000_000_000) by {
        reveal_with_fuel(pow10, 10);
    }
    while i < e
        invariant
            i <= e <= 9,
            power == pow10(i as nat),
            power <= pow10(9),
            pow10(9) == 1_000_000_000,
        decreases e - i,
    {
        proof {
            lemma_pow10_grows((i + 1) as nat, 9);
        }
        power = power * 10;
        i += 1;
    }
    power
}

} // verus!
