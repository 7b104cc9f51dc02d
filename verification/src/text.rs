//! Decimal digits in bytes and characters, shared by the parsers of times and identifiers.
use vstd::prelude::*;
use vstd::string::*;
use vstd::utf8::valid_utf8;

verus! {

/// `b` is one of the ASCII digits `0`..`9`.
pub open spec fn is_ascii_digit(b: u8) -> bool {
    48 <= b <= 57
}

/// Every byte of `bs` is an ASCII digit.
pub open spec fn all_digits(bs: Seq<u8>) -> bool {
    forall|i: int| 0 <= i < bs.len() ==> is_ascii_digit(#[trigger] bs[i])
}

/// The number written in decimal by the ASCII digits `bs` (0 for no digits).
pub open spec fn digits_value(bs: Seq<u8>) -> nat
    decreases bs.len(),
{
    if bs.len() == 0 {
        0
    } else {
        digits_value(bs.drop_last()) * 10 + (bs.last() - 48) as nat
    }
}

/// The bytes that must be digits in an unsigned integer literal: a leading `+` is dropped.
pub open spec fn unsigned_digits(bs: Seq<u8>) -> Seq<u8> {
    if bs.len() > 0 && bs[0] == 43u8 {
        bs.drop_first()
    } else {
        bs
    }
}

/// The value of a `u32` written as std's `u32::from_str` reads it: an optional `+`,
/// then at least one ASCII digit, and nothing else; `None` when that fails or overflows.
pub open spec fn u32_literal(bs: Seq<u8>) -> Option<u32> {
    let d = unsigned_digits(bs);
    if d.len() > 0 && all_digits(d) && digits_value(d) <= u32::MAX {
        Some(digits_value(d) as u32)
    } else {
        None
    }
}

/// The character of the decimal digit `d`.
pub open spec fn digit_char(d: nat) -> char {
    if d == 0 {
        '0'
    } else if d == 1 {
        '1'
    } else if d == 2 {
        '2'
    } else if d == 3 {
        '3'
    } else if d == 4 {
        '4'
    } else if d == 5 {
        '5'
    } else if d == 6 {
        '6'
    } else if d == 7 {
        '7'
    } else if d == 8 {
        '8'
    } else {
        '9'
    }
}

/// The decimal representation of `n`, without leading zeros.
pub open spec fn decimal(n: nat) -> Seq<char>
    decreases n,
{
    if n < 10 {
        seq![digit_char(n)]
    } else {
        decimal(n / 10) + seq![digit_char(n % 10)]
    }
}

/// `n` in decimal, padded with a leading zero to at least two digits (as `{:02}` formats it).
pub open spec fn pad2(n: nat) -> Seq<char> {
    if n < 10 {
        seq!['0', digit_char(n)]
    } else {
        decimal(n)
    }
}

/// The string of the single decimal digit `d`.
pub fn digit_str(d: u8) -> (s: &'static str)
    requires
        d < 10,
    ensures
        s@ == seq![digit_char(d as nat)],
{
    proof {
        reveal_strlit("0");
        reveal_strlit("1");
        reveal_strlit("2");
        reveal_strlit("3");
        reveal_strlit("4");
        reveal_strlit("5");
        reveal_strlit("6");
        reveal_strlit("7");
        reveal_strlit("8");
        reveal_strlit("9");
    }
    match d {
        0 => "0",
        1 => "1",
        2 => "2",
        3 => "3",
        4 => "4",
        5 => "5",
        6 => "6",
        7 => "7",
        8 => "8",
        _ => "9",
    }
}

/// Appends the decimal representation of `n` to `out`.
pub fn push_decimal(out: &mut String, n: u32)
    ensures
        final(out)@ == old(out)@ + decimal(n as nat),
    decreases n,
{
    if n < 10 {
        out.append(digit_str(n as u8));
    } else {
        push_decimal(out, n / 10);
        out.append(digit_str((n % 10) as u8));
    }
}

/// The decimal representation of `n`, with a leading `-` when it is negative.
pub open spec fn signed_decimal(n: int) -> Seq<char> {
    if n < 0 {
        seq!['-'] + decimal((-n) as nat)
    } else {
        decimal(n as nat)
    }
}

/// Appends the decimal representation of `n` to `out`.
pub fn push_decimal_u64(out: &mut String, n: u64)
    ensures
        final(out)@ == old(out)@ + decimal(n as nat),
    decreases n,
{
    if n < 10 {
        out.append(digit_str(n as u8));
    } else {
        push_decimal_u64(out, n / 10);
        out.append(digit_str((n % 10) as u8));
    }
}

/// Appends `n` to `out` as `{}` formats it.
pub fn push_signed(out: &mut String, n: i64)
    ensures
        final(out)@ == old(out)@ + signed_decimal(n as int),
{
    if n < 0 {
        proof {
            reveal_strlit("-");
        }
        out.append("-");
        let magnitude: u64 = if n == i64::MIN {
            0x8000_0000_0000_0000
        } else {
            (-n) as u64
        };
        push_decimal_u64(out, magnitude);
        assert(out@ =~= old(out)@ + signed_decimal(n as int));
    } else {
        push_decimal_u64(out, n as u64);
    }
}

/// Appends `n` to `out` as `{:02}` formats it.
pub fn push_pad2(out: &mut String, n: u32)
    ensures
        final(out)@ == old(out)@ + pad2(n as nat),
{
    if n < 10 {
        out.append(digit_str(0));
        out.append(digit_str(n as u8));
    } else {
        push_decimal(out, n);
    }
}

/// Whether the bytes of `s` begin with those of `prefix`.
pub fn starts_with(s: &str, prefix: &str) -> (b: bool)
    ensures
        b == (prefix.spec_bytes().len() <= s.spec_bytes().len() && s.spec_bytes().take(
            prefix.spec_bytes().len() as int,
        ) == prefix.spec_bytes()),
{
    let sb = s.as_bytes();
    let pb = prefix.as_bytes();
    if pb.len() > sb.len() {
        return false;
    }
    let mut i: usize = 0;
    while i < pb.len()
        invariant
            i <= pb@.len() <= sb@.len(),
            sb@ == s.spec_bytes(),
            pb@ == prefix.spec_bytes(),
            forall|j: int| 0 <= j < i ==> sb@[j] == pb@[j],
        decreases pb@.len() - i,
    {
        if sb[i] != pb[i] {
            assert(sb@.take(pb@.len() as int)[i as int] != pb@[i as int]);
            return false;
        }
        i = i + 1;
    }
    assert(sb@.take(pb@.len() as int) =~= pb@);
    true
}

/// std's `str::from_utf8`, kept only when it succeeds.
/// Claims that it succeeds exactly on valid UTF-8, and that the string then holds those bytes.
#[verifier::external_body]
pub(crate) fn str_from_utf8(bytes: &[u8]) -> (r: Option<&str>)
    ensures
        r is Some <==> valid_utf8(bytes@),
        r matches Some(s) ==> s.spec_bytes() == bytes@,
{
    std::str::from_utf8(bytes).ok()
}

/// std's `u32::from_str` (through `str::parse`).
/// Claims that it succeeds exactly when the bytes are an optional `+` and then decimal digits
/// whose value fits in a `u32`, and that it then returns that value.
#[verifier::external_body]
pub(crate) fn parse_u32(s: &str) -> (r: Result<u32, std::num::ParseIntError>)
    ensures
        match r {
            Ok(v) => u32_literal(s.spec_bytes()) == Some(v),
            Err(_) => u32_literal(s.spec_bytes()) is None,
        },
{
    s.parse::<u32>()
}

/// std's `ParseIntError`, the error of parsing an integer.
#[verifier::external_type_specification]
#[verifier::external_body]
pub struct ExParseIntError(std::num::ParseIntError);

} // verus!
