//! Sizes in bytes as people write them: `999B`, `4.2MB`, `5.0GB`.

use vstd::prelude::*;
use crate::scan::{
    first_index, least, lemma_decimal_read_back, lemma_digits_value_bound, lemma_first_index,
    lemma_first_index_found, lemma_fraction_scaled, lemma_pow10_add, lemma_pow10_grows,
    lemma_pow10_positive, lemma_read_decimal, lemma_read_one_decimal, lemma_scaled_parts,
    read_number, scaled, scan_digits, ten_to, text_of, to_chars, unsigned_part, Number,
};
use crate::text::{
    all_digits, decimal, digit_char, digits_value, is_digit, one_decimal, pow10, push_decimal,
    push_one_decimal, round_div, rounded_div,
};

verus! {

/// Bytes in a kilobyte, the smallest unit above the byte. Units go up by this factor.
pub const KILO: u64 = 1_000;

/// Bytes in a megabyte.
pub const MEGA: u64 = 1_000_000;

/// Bytes in a gigabyte.
pub const GIGA: u64 = 1_000_000_000;

/// `size` bytes counted in `unit` bytes, rounded to one decimal place, followed by the unit's
/// name.
pub open spec fn in_unit(size: nat, unit: nat, name: Seq<char>) -> Seq<char> {
    one_decimal(rounded_div(10 * size, unit)) + name
}

/// A size as people read it. Below a kilobyte the bytes are counted; from there on the size is
/// given to one decimal place in the largest unit (`KB`, `MB`, `GB`) that it reaches.
pub open spec fn human_size(size: nat) -> Seq<char> {
    if size < KILO {
        decimal(size).push('B')
    } else if size < MEGA {
        in_unit(size, KILO as nat, seq!['K', 'B'])
    } else if size < GIGA {
        in_unit(size, MEGA as nat, seq!['M', 'B'])
    } else {
        in_unit(size, GIGA as nat, seq!['G', 'B'])
    }
}

/// Appends `size` counted in `unit` to `out`, with one decimal place and the unit's name.
fn push_in_unit(out: &mut String, size: u64, unit: u64, name: &str)
    requires
        unit > 0,
    ensures
        final(out)@ == old(out)@ + in_unit(size as nat, unit as nat, name@),
{
    let tenths = round_div(10 * (size as u128), unit as u128);
    push_one_decimal(out, tenths);
    out.append(name);
    assert(out@ =~= old(out)@ + in_unit(size as nat, unit as nat, name@));
}

/// Converts a size in bytes to the text that people read.
pub fn file_size_to_str(size: u64) -> (text: String)
    ensures
        text@ == human_size(size as nat),
{
    let mut text = String::new();
    if size < KILO {
        push_decimal(&mut text, size as u128);
        text.push('B');
    } else if size < MEGA {
        proof {
            reveal_strlit("KB");
        }
        push_in_unit(&mut text, size, KILO, "KB");
    } else if size < GIGA {
        proof {
            reveal_strlit("MB");
        }
        push_in_unit(&mut text, size, MEGA, "MB");
    } else {
        proof {
            reveal_strlit("GB");
        }
        push_in_unit(&mut text, size, GIGA, "GB");
    }
    assert(text@ =~= human_size(size as nat));
    text
}

/// Why a text is not a size.
#[derive(Debug, PartialEq, Eq)]
pub enum SizeError {
    /// What follows the number is not a unit. Holds what follows, in upper case.
    InvalidUnit(String),
    /// What stands before the unit is not a number. Holds what stands there.
    ParseError(String),
}

/// What a [`SizeError`] stands for.
pub enum SizeFault {
    InvalidUnit(Seq<char>),
    ParseError(Seq<char>),
}

impl View for SizeError {
    type V = SizeFault;

    open spec fn view(&self) -> SizeFault {
        match self {
            SizeError::InvalidUnit(unit) => SizeFault::InvalidUnit(unit@),
            SizeError::ParseError(value) => SizeFault::ParseError(value@),
        }
    }
}

/// A fault in words.
pub open spec fn size_fault_text(fault: SizeFault) -> Seq<char> {
    match fault {
        SizeFault::InvalidUnit(unit) => "Invalid file size unit: "@ + unit
            + ".\n Supported file size units: B, MB, KB, GB."@,
        SizeFault::ParseError(value) => "Failed to parse value: "@ + value,
    }
}

impl SizeError {
    /// The error in words.
    pub fn message(&self) -> (text: String)
        ensures
            text@ == size_fault_text(self@),
    {
        match self {
            SizeError::InvalidUnit(unit) => {
                let mut text = "Invalid file size unit: ".to_owned();
                text.append(unit.as_str());
                text.append(".\n Supported file size units: B, MB, KB, GB.");
                text
            },
            SizeError::ParseError(value) => {
                let mut text = "Failed to parse value: ".to_owned();
                text.append(value.as_str());
                text
            },
        }
    }
}

/// Whether `c` is a letter of the Latin alphabet, small or capital.
pub open spec fn is_letter(c: char) -> bool {
    ('a' <= c <= 'z') || ('A' <= c <= 'Z')
}

/// `c` as a capital, if it is a small letter of the Latin alphabet; else `c`.
pub open spec fn capital(c: char) -> char {
    if 'a' <= c <= 'z' {
        (c as u32 - 32) as char
    } else {
        c
    }
}

/// `s` with its small letters as capitals.
pub open spec fn capitals(s: Seq<char>) -> Seq<char> {
    Seq::new(s.len(), |i: int| capital(s[i]))
}

/// The power of ten that a unit stands for: none or `B` for bytes, `K` or `KB`, `M` or `MB`,
/// `G` or `GB`, in small letters or capitals. `None` for anything else.
pub open spec fn unit_power(unit: Seq<char>) -> Option<nat> {
    let name = capitals(unit);
    if name =~= Seq::empty() || name =~= seq!['B'] {
        Some(0)
    } else if name =~= seq!['K'] || name =~= seq!['K', 'B'] {
        Some(3)
    } else if name =~= seq!['M'] || name =~= seq!['M', 'B'] {
        Some(6)
    } else if name =~= seq!['G'] || name =~= seq!['G', 'B'] {
        Some(9)
    } else {
        None
    }
}

/// Where the unit starts in a size: at the first letter, or at the end where there is none.
pub open spec fn unit_start(input: Seq<char>) -> int {
    first_index(input, |c: char| is_letter(c))
}

/// A number in a unit as a count of bytes: rounded down to a whole number, 0 for what is
/// below 0, `u64::MAX` for what is above it.
pub open spec fn bytes_of(number: Number, power: nat) -> u64 {
    if number.negative {
        0
    } else if scaled(number, power) > u64::MAX {
        u64::MAX
    } else {
        scaled(number, power) as u64
    }
}

/// The size that a text gives. The text is a decimal number followed by a unit; the unit
/// starts at the first letter. The unit is looked at first.
pub open spec fn size_from_text(input: Seq<char>) -> Result<u64, SizeFault> {
    let start = unit_start(input);
    let value = input.take(start);
    let unit = input.skip(start);
    match unit_power(unit) {
        None => Err(SizeFault::InvalidUnit(capitals(unit))),
        Some(power) => match read_number(value) {
            None => Err(SizeFault::ParseError(value)),
            Some(number) => Ok(bytes_of(number, power)),
        },
    }
}

/// The outcome of reading a size, with the error by its view.
pub open spec fn size_outcome(outcome: Result<u64, SizeError>) -> Result<u64, SizeFault> {
    match outcome {
        Ok(size) => Ok(size),
        Err(error) => Err(error@),
    }
}

/// Whether `c` is a letter of the Latin alphabet.
fn is_letter_char(c: char) -> (yes: bool)
    ensures
        yes == is_letter(c),
{
    ('a' <= c && c <= 'z') || ('A' <= c && c <= 'Z')
}

/// `c` as a capital.
fn to_capital(c: char) -> (big: char)
    ensures
        big == capital(c),
{
    if 'a' <= c && c <= 'z' {
        ((c as u32 - 32) as u8) as char
    } else {
        c
    }
}

/// Where the first letter stands in `chars`, or their number where there is none.
fn find_unit(chars: &Vec<char>) -> (start: usize)
    ensures
        start == unit_start(chars@),
        start <= chars@.len(),
{
    let mut i: usize = 0;
    while i < chars.len() && !is_letter_char(chars[i])
        invariant
            i <= chars@.len(),
            forall|j: int| 0 <= j < i ==> !is_letter(#[trigger] chars@[j]),
        decreases chars@.len() - i,
    {
        i += 1;
    }
    proof {
        lemma_first_index(chars@, |c: char| is_letter(c), i as int);
    }
    i
}

/// The power of ten that the unit from `start` on stands for.
fn unit_power_of(chars: &Vec<char>, start: usize) -> (power: Option<u32>)
    requires
        start <= chars@.len(),
    ensures
        match power {
            Some(power) => unit_power(chars@.skip(start as int)) == Some(power as nat),
            None => unit_power(chars@.skip(start as int)) is None,
        },
{
    let ghost name = capitals(chars@.skip(start as int));
    let len = chars.len() - start;
    if len == 0 {
        assert(name =~= Seq::empty());
        return Some(0);
    }
    let first = to_capital(chars[start]);
    assert(name[0] == first);
    if len == 1 {
        if first == 'B' {
            assert(name =~= seq!['B']);
            Some(0)
        } else if first == 'K' {
            assert(name =~= seq!['K']);
            Some(3)
        } else if first == 'M' {
            assert(name =~= seq!['M']);
            Some(6)
        } else if first == 'G' {
            assert(name =~= seq!['G']);
            Some(9)
        } else {
            None
        }
    } else if len == 2 {
        let second = to_capital(chars[start + 1]);
        assert(name[1] == second);
        if second != 'B' {
            None
        } else if first == 'K' {
            assert(name =~= seq!['K', 'B']);
            Some(3)
        } else if first == 'M' {
            assert(name =~= seq!['M', 'B']);
            Some(6)
        } else if first == 'G' {
            assert(name =~= seq!['G', 'B']);
            Some(9)
        } else {
            None
        }
    } else {
        None
    }
}

/// The unit from `start` on, in capitals.
fn capitals_of(chars: &Vec<char>, start: usize) -> (text: String)
    requires
        start <= chars@.len(),
    ensures
        text@ == capitals(chars@.skip(start as int)),
{
    let mut text = String::new();
    let mut i = start;
    while i < chars.len()
        invariant
            start <= i <= chars@.len(),
            text@ == capitals(chars@.subrange(start as int, i as int)),
        decreases chars@.len() - i,
    {
        text.push(to_capital(chars[i]));
        i += 1;
        assert(text@ =~= capitals(chars@.subrange(start as int, i as int)));
    }
    assert(chars@.subrange(start as int, i as int) =~= chars@.skip(start as int));
    text
}

/// Where the parts of a number stand among some characters: the digits in front of the point
/// from `whole_from` up to `whole_end`, those behind it from `fraction_from` on.
struct Parts {
    negative: bool,
    whole_from: usize,
    whole_end: usize,
    fraction_from: usize,
}

/// Finds the parts of the decimal number that the characters before `end` write; `None` if
/// they write none.
fn find_parts(chars: &Vec<char>, end: usize) -> (found: Option<Parts>)
    requires
        end <= chars@.len(),
    ensures
        match found {
            Some(parts) => {
                &&& parts.whole_from <= parts.whole_end <= parts.fraction_from <= end
                &&& read_number(chars@.take(end as int)) == Some(
                    Number {
                        negative: parts.negative,
                        whole: chars@.subrange(parts.whole_from as int, parts.whole_end as int),
                        fraction: chars@.subrange(parts.fraction_from as int, end as int),
                    },
                )
            },
            None => read_number(chars@.take(end as int)) is None,
        },
{
    let ghost text = chars@.take(end as int);
    let ghost body = unsigned_part(text);
    let ghost is_point = |c: char| c == '.';
    let ghost point = first_index(body, is_point);
    let mut at: usize = 0;
    let mut negative = false;
    if end > 0 && (chars[0] == '+' || chars[0] == '-') {
        negative = chars[0] == '-';
        at = 1;
    }
    assert(body =~= chars@.subrange(at as int, end as int));
    let (whole_end, _) = scan_digits(chars, at, end);
    let ghost whole = chars@.subrange(at as int, whole_end as int);
    proof {
        lemma_first_index_found(body, is_point);
        assert forall|j: int| 0 <= j < whole_end - at implies !is_point(#[trigger] body[j]) by {
            assert(body[j] == whole[j]);
        }
    }
    if whole_end == end {
        proof {
            lemma_first_index(body, is_point, body.len() as int);
            assert(body.take(point) =~= whole);
            assert(chars@.subrange(end as int, end as int) =~= Seq::<char>::empty());
        }
        if whole_end == at {
            None
        } else {
            Some(Parts { negative, whole_from: at, whole_end, fraction_from: end })
        }
    } else if chars[whole_end] != '.' {
        proof {
            assert(!is_digit(body[whole_end - at]));
            assert(body.take(point)[whole_end - at] == body[whole_end - at]);
        }
        None
    } else {
        let fraction_from = whole_end + 1;
        let (fraction_end, _) = scan_digits(chars, fraction_from, end);
        let ghost fraction = chars@.subrange(fraction_from as int, end as int);
        proof {
            lemma_first_index(body, is_point, whole_end - at);
            assert(body.take(point) =~= whole);
            assert(body.skip(point + 1) =~= fraction);
            if fraction_end < end {
                assert(!is_digit(fraction[fraction_end - fraction_from]));
            } else {
                assert(fraction =~= chars@.subrange(fraction_from as int, fraction_end as int));
            }
        }
        if fraction_end < end || (whole_end == at && fraction_from == end) {
            None
        } else {
            Some(Parts { negative, whole_from: at, whole_end, fraction_from })
        }
    }
}

/// The number that the digits from `from` up to `to` write, or `u64::MAX` if that is less.
fn digits_to_number(chars: &Vec<char>, from: usize, to: usize) -> (value: u64)
    requires
        from <= to <= chars@.len(),
        all_digits(chars@.subrange(from as int, to as int)),
    ensures
        value == least(digits_value(chars@.subrange(from as int, to as int)), u64::MAX as nat),
{
    let (stop, value) = scan_digits(chars, from, to);
    proof {
        if stop < to {
            assert(chars@.subrange(from as int, to as int)[stop - from] == chars@[stop as int]);
        }
    }
    value
}

/// What the digits behind the point, from `from` up to `end`, add to a number in the unit of
/// `power`.
fn fraction_bytes(chars: &Vec<char>, from: usize, end: usize, power: u32) -> (bytes: u64)
    requires
        from <= end <= chars@.len(),
        all_digits(chars@.subrange(from as int, end as int)),
        power <= 9,
    ensures
        bytes == digits_value(chars@.subrange(from as int, end as int)) * pow10(power as nat)
            / pow10((end - from) as nat),
        bytes < 1_000_000_000,
{
    let ghost fraction = chars@.subrange(from as int, end as int);
    let taken = if end - from > power as usize {
        power as usize
    } else {
        end - from
    };
    let ghost head = chars@.subrange(from as int, from + taken);
    proof {
        assert(head =~= fraction.take(taken as int));
        assert forall|j: int| 0 <= j < head.len() implies is_digit(#[trigger] head[j]) by {
            assert(head[j] == fraction[j]);
        }
        lemma_digits_value_bound(head);
        lemma_pow10_add(taken as nat, (power - taken) as nat);
        assert(pow10(9) == 1_000_000_000) by {
            reveal_with_fuel(pow10, 10);
        }
        lemma_pow10_grows(power as nat, 9);
        lemma_pow10_positive((power - taken) as nat);
        lemma_fraction_scaled(fraction, power as nat);
        assert(fraction.take(fraction.len() as int) =~= fraction);
    }
    let value = digits_to_number(chars, from, from + taken);
    let zeros = ten_to(power - taken as u32);
    assert(value * zeros < pow10(power as nat)) by (nonlinear_arith)
        requires
            value < pow10(taken as nat),
            pow10(power as nat) == pow10(taken as nat) * zeros,
            zeros > 0,
    ;
    proof {
        assert(pow10(taken as nat) <= pow10(9)) by {
            lemma_pow10_grows(taken as nat, 9);
        }
        assert(digits_value(head) < u64::MAX);
        assert(value == digits_value(head));
        if end - from > power {
            assert(zeros == 1);
            assert(value * zeros == value) by (nonlinear_arith)
                requires
                    zeros == 1,
            ;
        } else {
            assert(fraction.take(taken as int) == fraction);
        }
    }
    value * zeros
}

/// Reads the characters before `end` as a decimal number in the unit of `power`, and gives
/// it in bytes; `None` if they are no number.
fn read_bytes(chars: &Vec<char>, end: usize, power: u32) -> (bytes: Option<u64>)
    requires
        end <= chars@.len(),
        power <= 9,
    ensures
        bytes == match read_number(chars@.take(end as int)) {
            Some(number) => Some(bytes_of(number, power as nat)),
            None => None::<u64>,
        },
{
    let parts = match find_parts(chars, end) {
        Some(parts) => parts,
        None => {
            return None;
        },
    };
    if parts.negative {
        return Some(0);
    }
    let ghost number = read_number(chars@.take(end as int)).unwrap();
    let whole = digits_to_number(chars, parts.whole_from, parts.whole_end);
    let fraction = fraction_bytes(chars, parts.fraction_from, end, power);
    let unit = ten_to(power);
    proof {
        lemma_scaled_parts(number, power as nat);
        lemma_pow10_positive(power as nat);
        let w = digits_value(number.whole);
        assert(w > u64::MAX ==> w * unit >= w) by (nonlinear_arith)
            requires
                unit >= 1,
        ;
        assert(whole * unit <= u64::MAX * 1_000_000_000) by (nonlinear_arith)
            requires
                whole <= u64::MAX,
                unit <= 1_000_000_000,
        ;
        assert(whole == u64::MAX ==> whole * unit >= u64::MAX) by (nonlinear_arith)
            requires
                unit >= 1,
        ;
    }
    let total = whole as u128 * unit as u128 + fraction as u128;
    if total > u64::MAX as u128 {
        Some(u64::MAX)
    } else {
        Some(total as u64)
    }
}

/// Reads a size as people write it: a decimal number, then a unit (`B`, `K` or `KB`, `M` or
/// `MB`, `G` or `GB`, in small letters or capitals) or none. Gives the bytes, rounded down.
pub fn str_to_file_size(input: &str) -> (outcome: Result<u64, SizeError>)
    ensures
        size_outcome(outcome) == size_from_text(input@),
{
    let chars = to_chars(input);
    let start = find_unit(&chars);
    let power = match unit_power_of(&chars, start) {
        Some(power) => power,
        None => {
            return Err(SizeError::InvalidUnit(capitals_of(&chars, start)));
        },
    };
    match read_bytes(&chars, start, power) {
        Some(bytes) => Ok(bytes),
        None => {
            let value = text_of(&chars, 0, start);
            assert(value@ =~= chars@.take(start as int));
            Err(SizeError::ParseError(value))
        },
    }
}

/// The bytes in the unit that a size is shown in.
pub open spec fn shown_unit(size: nat) -> nat {
    if size < KILO {
        1
    } else if size < MEGA {
        KILO as nat
    } else if size < GIGA {
        MEGA as nat
    } else {
        GIGA as nat
    }
}

/// The size that the text for `size` stands for: `size` itself below a kilobyte, and from
/// there on `size` rounded to a tenth of its unit.
pub open spec fn shown_size(size: nat) -> nat {
    if size < KILO {
        size
    } else {
        rounded_div(10 * size, shown_unit(size)) * (shown_unit(size) / 10)
    }
}

/// A text made of a number and a unit is split where the unit starts: the number holds no
/// letter, and the unit starts with one.
proof fn lemma_split_at_unit(value: Seq<char>, unit: Seq<char>)
    requires
        forall|i: int| 0 <= i < value.len() ==> !is_letter(#[trigger] value[i]),
        unit.len() > 0,
        is_letter(unit[0]),
    ensures
        unit_start(value + unit) == value.len(),
        (value + unit).take(value.len() as int) == value,
        (value + unit).skip(value.len() as int) == unit,
{
    let text = value + unit;
    assert forall|i: int| 0 <= i < value.len() implies !(|c: char| is_letter(c))(
        #[trigger] text[i],
    ) by {
        assert(text[i] == value[i]);
    }
    assert(text[value.len() as int] == unit[0]);
    lemma_first_index(text, |c: char| is_letter(c), value.len() as int);
    assert(text.take(value.len() as int) =~= value);
    assert(text.skip(value.len() as int) =~= unit);
}

/// A size shown in a unit above the byte reads back as the size rounded to a tenth of the
/// unit.
proof fn lemma_unit_round_trip(size: nat, power: nat, name: Seq<char>)
    requires
        1 <= power <= 9,
        unit_power(name) == Some(power),
        name.len() > 0,
        is_letter(name[0]),
        rounded_div(10 * size, pow10(power)) * pow10((power - 1) as nat) <= u64::MAX,
    ensures
        size_from_text(in_unit(size, pow10(power), name)) == Ok::<u64, SizeFault>(
            (rounded_div(10 * size, pow10(power)) * pow10((power - 1) as nat)) as u64,
        ),
{
    let tenths = rounded_div(10 * size, pow10(power));
    let value = one_decimal(tenths);
    let whole = decimal(tenths / 10);
    let last = digit_char(tenths % 10);
    lemma_decimal_read_back(tenths / 10);
    assert(is_digit(last));
    assert forall|i: int| 0 <= i < value.len() implies !is_letter(#[trigger] value[i]) by {
        if i < whole.len() {
            assert(value[i] == whole[i]);
            assert(is_digit(whole[i]));
        }
    }
    lemma_split_at_unit(value, name);
    lemma_read_one_decimal(tenths);
    let number = Number { negative: false, whole, fraction: seq![last] };
    assert(pow10(1) == 10) by {
        reveal_with_fuel(pow10, 2);
    }
    lemma_pow10_add(1, (power - 1) as nat);
    let rest = pow10((power - 1) as nat);
    assert(tenths * (10 * rest) == (tenths * rest) * 10 + 0) by (nonlinear_arith);
    vstd::arithmetic::div_mod::lemma_fundamental_div_mod_converse(
        (tenths * (10 * rest)) as int,
        10,
        (tenths * rest) as int,
        0,
    );
    assert(scaled(number, power) == tenths * rest);
}

/// A size that is written out for people and read again comes back rounded as it was shown:
/// unchanged below a kilobyte, and from there on to the nearest tenth of its unit, so that
/// it is off by a twentieth of the unit at most.
pub proof fn lemma_size_round_trip(size: u64)
    ensures
        size_from_text(human_size(size as nat)) == Ok::<u64, SizeFault>(
            shown_size(size as nat) as u64,
        ),
        shown_size(size as nat) <= u64::MAX,
        size - shown_unit(size as nat) / 20 <= shown_size(size as nat) <= size + shown_unit(
            size as nat,
        ) / 20,
{
    let n = size as nat;
    assert(pow10(3) == 1_000 && pow10(2) == 100 && pow10(6) == 1_000_000 && pow10(5) == 100_000
        && pow10(9) == 1_000_000_000 && pow10(8) == 100_000_000 && pow10(0) == 1) by {
        reveal_with_fuel(pow10, 10);
    }
    if n < KILO {
        let value = decimal(n);
        let unit = seq!['B'];
        lemma_decimal_read_back(n);
        assert(value.push('B') =~= value + unit);
        assert forall|i: int| 0 <= i < value.len() implies !is_letter(#[trigger] value[i]) by {
            assert(is_digit(value[i]));
        }
        lemma_split_at_unit(value, unit);
        assert(capitals(unit) =~= unit);
        lemma_read_decimal(n);
        let number = Number { negative: false, whole: value, fraction: Seq::empty() };
        assert(value + Seq::<char>::empty() =~= value);
        assert(scaled(number, 0) == n);
    } else if n < MEGA {
        let name = seq!['K', 'B'];
        assert(capitals(name) =~= name);
        let tenths = (20 * n + 1_000) / 2_000;
        assert(rounded_div(10 * n, pow10(3)) == tenths);
        assert(tenths * pow10(2) == tenths * 100);
        lemma_unit_round_trip(n, 3, name);
    } else if n < GIGA {
        let name = seq!['M', 'B'];
        assert(capitals(name) =~= name);
        let tenths = (20 * n + 1_000_000) / 2_000_000;
        assert(rounded_div(10 * n, pow10(6)) == tenths);
        assert(tenths * pow10(5) == tenths * 100_000);
        lemma_unit_round_trip(n, 6, name);
    } else {
        let name = seq!['G', 'B'];
        assert(capitals(name) =~= name);
        let tenths = (20 * n + 1_000_000_000) / 2_000_000_000;
        assert(rounded_div(10 * n, pow10(9)) == tenths);
        assert(tenths * pow10(8) == tenths * 100_000_000);
        lemma_unit_round_trip(n, 9, name);
    }
}

} // verus!
