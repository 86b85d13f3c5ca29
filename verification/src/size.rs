//! Size units and the exact decimal arithmetic behind them.
//!
//! Units use decimal (SI) multipliers. A byte count rendered in a unit is the
//! exact quotient written as a decimal numeral: the whole part, then, when the
//! remainder is not zero, a decimal point and the fractional digits with
//! trailing zeros removed.

use vstd::prelude::*;
use vstd::string::*;

verus! {

/// A size unit with a decimal (SI) multiplier.
#[derive(Clone, Copy, Debug, PartialEq, Eq, Structural)]
pub enum SizeUnit {
    Byte,
    Kilobyte,
    Megabyte,
    Gigabyte,
}

/// How many bytes one whole unit stands for.
pub open spec fn multiplier_spec(unit: SizeUnit) -> int {
    match unit {
        SizeUnit::Byte => 1,
        SizeUnit::Kilobyte => 1000,
        SizeUnit::Megabyte => 1000000,
        SizeUnit::Gigabyte => 1000000000,
    }
}

/// How many decimal digits a fractional remainder in this unit can have.
pub open spec fn frac_width(unit: SizeUnit) -> int {
    match unit {
        SizeUnit::Byte => 0,
        SizeUnit::Kilobyte => 3,
        SizeUnit::Megabyte => 6,
        SizeUnit::Gigabyte => 9,
    }
}

/// The unit's one-letter suffix in rendered output.
pub open spec fn symbol_spec(unit: SizeUnit) -> Seq<char> {
    match unit {
        SizeUnit::Byte => seq!['b'],
        SizeUnit::Kilobyte => seq!['K'],
        SizeUnit::Megabyte => seq!['M'],
        SizeUnit::Gigabyte => seq!['G'],
    }
}

impl SizeUnit {
    pub fn multiplier(&self) -> (r: u64)
        ensures
            r == multiplier_spec(*self),
    {
        match self {
            SizeUnit::Byte => 1,
            SizeUnit::Kilobyte => 1000,
            SizeUnit::Megabyte => 1000000,
            SizeUnit::Gigabyte => 1000000000,
        }
    }

    pub fn symbol(&self) -> (r: &'static str)
        ensures
            r@ == symbol_spec(*self),
    {
        proof {
            reveal_strlit("b");
            reveal_strlit("K");
            reveal_strlit("M");
            reveal_strlit("G");
            assert("b"@ =~= seq!['b']);
            assert("K"@ =~= seq!['K']);
            assert("M"@ =~= seq!['M']);
            assert("G"@ =~= seq!['G']);
        }
        match self {
            SizeUnit::Byte => "b",
            SizeUnit::Kilobyte => "K",
            SizeUnit::Megabyte => "M",
            SizeUnit::Gigabyte => "G",
        }
    }

    fn frac_width_u(&self) -> (r: u64)
        ensures
            r == frac_width(*self),
    {
        match self {
            SizeUnit::Byte => 0,
            SizeUnit::Kilobyte => 3,
            SizeUnit::Megabyte => 6,
            SizeUnit::Gigabyte => 9,
        }
    }
}

/// Splits a byte count into whole units and the remainder in bytes.
pub fn to_unit_value(bytes: u64, unit: SizeUnit) -> (r: (u64, u64))
    ensures
        r.0 == bytes as int / multiplier_spec(unit),
        r.1 == bytes as int % multiplier_spec(unit),
        r.0 * multiplier_spec(unit) + r.1 == bytes,
{
    let m = unit.multiplier();
    proof {
        vstd::arithmetic::div_mod::lemma_fundamental_div_mod(bytes as int, m as int);
    }
    (bytes / m, bytes % m)
}

/// Turns a whole number of units back into bytes; `None` when the byte
/// count would not fit in 64 bits.
pub fn from_unit_value(value: u64, unit: SizeUnit) -> (r: Option<u64>)
    ensures
        value * multiplier_spec(unit) <= u64::MAX ==> r == Some((value * multiplier_spec(unit)) as u64),
        value * multiplier_spec(unit) > u64::MAX ==> r is None,
{
    let m = unit.multiplier();
    value.checked_mul(m)
}

/// Converting a byte count that is an even multiple of the unit's
/// multiplier into that unit and back reproduces it exactly.
pub proof fn lemma_unit_round_trip(bytes: u64, unit: SizeUnit)
    requires
        bytes as int % multiplier_spec(unit) == 0,
    ensures
        (bytes as int / multiplier_spec(unit)) * multiplier_spec(unit) == bytes,
{
    vstd::arithmetic::div_mod::lemma_fundamental_div_mod(bytes as int, multiplier_spec(unit));
}

/// The decimal digit character for d, 0 <= d <= 9.
pub open spec fn digit_char(d: int) -> char {
    if d == 0 {
        '0'
    } else if d == 1 {
        '1'
    } else if d == 2 {
        '2'
    } else if d == 3 {
        '3'
    } else if d == 4 {
        '4'
    } else if d == 5 {
        '5'
    } else if d == 6 {
        '6'
    } else if d == 7 {
        '7'
    } else if d == 8 {
        '8'
    } else {
        '9'
    }
}

/// The decimal digits of n, most significant first.
pub open spec fn dec_digits(n: int) -> Seq<char>
    decreases n,
{
    if n < 10 {
        seq![digit_char(n)]
    } else {
        dec_digits(n / 10).push(digit_char(n % 10))
    }
}

/// k zero characters.
pub open spec fn zeros(k: int) -> Seq<char>
    decreases k,
{
    if k <= 0 {
        Seq::empty()
    } else {
        zeros(k - 1).push('0')
    }
}

/// s left-padded with zeros to length k.
pub open spec fn pad_left(s: Seq<char>, k: int) -> Seq<char> {
    zeros(k - s.len()) + s
}

/// s with its trailing zero characters removed.
pub open spec fn trim_zeros(s: Seq<char>) -> Seq<char>
    decreases s.len(),
{
    if s.len() > 0 && s.last() == '0' {
        trim_zeros(s.drop_last())
    } else {
        s
    }
}

/// The rendered text of a byte count in a unit: the exact decimal value of
/// bytes divided by the unit's multiplier, followed by the unit's suffix.
pub open spec fn size_chars(bytes: int, unit: SizeUnit) -> Seq<char> {
    let m = multiplier_spec(unit);
    let whole = bytes / m;
    let rem = bytes % m;
    if rem == 0 {
        dec_digits(whole) + symbol_spec(unit)
    } else {
        dec_digits(whole) + seq!['.'] + trim_zeros(pad_left(dec_digits(rem), frac_width(unit)))
            + symbol_spec(unit)
    }
}

fn digit_str(d: u64) -> (r: &'static str)
    requires
        d < 10,
    ensures
        r@ == seq![digit_char(d as int)],
{
    proof {
        reveal_strlit("0");
        reveal_strlit("1");
        reveal_strlit("2");
        reveal_strlit("3");
        reveal_strlit("4");
        reveal_strlit("5");
        reveal_strlit("6");
        reveal_strlit("7");
        reveal_strlit("8");
        reveal_strlit("9");
        assert("0"@ =~= seq!['0']);
        assert("1"@ =~= seq!['1']);
        assert("2"@ =~= seq!['2']);
        assert("3"@ =~= seq!['3']);
        assert("4"@ =~= seq!['4']);
        assert("5"@ =~= seq!['5']);
        assert("6"@ =~= seq!['6']);
        assert("7"@ =~= seq!['7']);
        assert("8"@ =~= seq!['8']);
        assert("9"@ =~= seq!['9']);
    }
    match d {
        0 => "0",
        1 => "1",
        2 => "2",
        3 => "3",
        4 => "4",
        5 => "5",
        6 => "6",
        7 => "7",
        8 => "8",
        _ => "9",
    }
}

/// The k-th power of ten.
pub open spec fn pow10(k: int) -> int
    decreases k,
{
    if k <= 0 {
        1
    } else {
        10 * pow10(k - 1)
    }
}

proof fn lemma_multiplier_pow10(unit: SizeUnit)
    ensures
        multiplier_spec(unit) == pow10(frac_width(unit)),
        pow10(frac_width(unit)) >= 1,
{
    reveal_with_fuel(pow10, 10);
}

/// A number below the k-th power of ten has at most k decimal digits.
proof fn lemma_dec_digits_len(n: int, k: int)
    requires
        0 <= n < pow10(k),
        1 <= k,
    ensures
        dec_digits(n).len() <= k,
    decreases k,
{
    if n >= 10 {
        assert(pow10(1) == 10) by {
            reveal_with_fuel(pow10, 2);
        }
        assert(k >= 2) by {
            if k == 1 {
                assert(n < pow10(1));
            }
        }
        assert(pow10(k) == 10 * pow10(k - 1));
        vstd::arithmetic::div_mod::lemma_multiply_divide_lt(n, 10, pow10(k - 1));
        lemma_dec_digits_len(n / 10, k - 1);
    }
}

proof fn lemma_dec_digits_last(n: int)
    requires
        n >= 0,
    ensures
        dec_digits(n).len() >= 1,
        dec_digits(n).last() == digit_char(n % 10),
{
    if n < 10 {
        assert(n % 10 == n);
    }
}

/// Stripping one trailing zero digit from the remainder, while narrowing
/// the padding width by one, leaves the trimmed fraction text unchanged.
proof fn lemma_trim_step(rem: int, width: int)
    requires
        rem > 0,
        rem % 10 == 0,
    ensures
        trim_zeros(pad_left(dec_digits(rem), width)) == trim_zeros(
            pad_left(dec_digits(rem / 10), width - 1),
        ),
{
    assert(rem >= 10);
    assert(digit_char(rem % 10) == '0');
    assert(dec_digits(rem) == dec_digits(rem / 10).push('0'));
    let narrow = pad_left(dec_digits(rem / 10), width - 1);
    assert(pad_left(dec_digits(rem), width) =~= narrow.push('0'));
    assert(narrow.push('0').drop_last() =~= narrow);
}

proof fn lemma_trim_identity(s: Seq<char>)
    requires
        s.len() == 0 || s.last() != '0',
    ensures
        trim_zeros(s) == s,
{
}

/// The decimal text of n.
pub fn u64_to_string(n: u64) -> (r: String)
    ensures
        r@ == dec_digits(n as int),
    decreases n,
{
    if n < 10 {
        String::from_str(digit_str(n))
    } else {
        let mut s = u64_to_string(n / 10);
        s.append(digit_str(n % 10));
        s
    }
}

/// Renders a byte count in a unit as the exact decimal value followed by
/// the unit's suffix, for instance 3000500 bytes in megabytes as
/// `3.0005M`.
pub fn format_size(bytes: u64, unit: SizeUnit) -> (r: String)
    ensures
        r@ == size_chars(bytes as int, unit),
{
    let m = unit.multiplier();
    let whole = bytes / m;
    let rem0 = bytes % m;
    let mut s = u64_to_string(whole);
    let ghost whole_part = s@;
    if rem0 > 0 {
        proof {
            reveal_strlit(".");
            assert("."@ =~= seq!['.']);
        }
        s.append(".");
        let mut rem = rem0;
        let mut width = unit.frac_width_u();
        proof {
            lemma_multiplier_pow10(unit);
        }
        while rem % 10 == 0
            invariant
                rem > 0,
                (rem as int) < pow10(width as int),
                trim_zeros(pad_left(dec_digits(rem as int), width as int)) == trim_zeros(
                    pad_left(dec_digits(rem0 as int), frac_width(unit)),
                ),
            decreases width,
        {
            proof {
                assert(width >= 1) by {
                    if width == 0 {
                        assert(pow10(0) == 1);
                    }
                }
                lemma_trim_step(rem as int, width as int);
                assert(pow10(width as int) == 10 * pow10(width as int - 1));
                vstd::arithmetic::div_mod::lemma_multiply_divide_lt(
                    rem as int,
                    10,
                    pow10(width as int - 1),
                );
            }
            rem = rem / 10;
            width = width - 1;
        }
        proof {
            assert(width >= 1) by {
                if width == 0 {
                    assert(pow10(0) == 1);
                }
            }
            lemma_dec_digits_len(rem as int, width as int);
            lemma_dec_digits_last(rem as int);
            assert(pad_left(dec_digits(rem as int), width as int).last() == dec_digits(
                rem as int,
            ).last());
            assert(digit_char(rem as int % 10) != '0');
            lemma_trim_identity(pad_left(dec_digits(rem as int), width as int));
        }
        let digits = u64_to_string(rem);
        let dlen = digits.as_str().unicode_len();
        let mut z: u64 = width - (dlen as u64);
        let ghost zcount = z as int;
        let ghost pre = s@;
        proof {
            assert(pre + zeros(0) =~= pre);
        }
        while z > 0
            invariant
                0 <= z <= zcount,
                s@ == pre + zeros(zcount - z),
            decreases z,
        {
            proof {
                reveal_strlit("0");
                assert("0"@ =~= seq!['0']);
                assert((pre + zeros(zcount - z)) + seq!['0'] =~= pre + zeros(zcount - z + 1));
            }
            s.append("0");
            z -= 1;
        }
        s.append(digits.as_str());
        proof {
            assert(zeros(zcount) + dec_digits(rem as int) =~= pad_left(
                dec_digits(rem as int),
                width as int,
            ));
            assert(s@ =~= whole_part + seq!['.'] + trim_zeros(
                pad_left(dec_digits(rem0 as int), frac_width(unit)),
            ));
        }
    }
    s.append(unit.symbol());
    proof {
        if rem0 == 0 {
            assert(s@ =~= dec_digits(whole as int) + symbol_spec(unit));
        } else {
            assert(s@ =~= dec_digits(whole as int) + seq!['.'] + trim_zeros(
                pad_left(dec_digits(rem0 as int), frac_width(unit)),
            ) + symbol_spec(unit));
        }
    }
    s
}

} // verus!
