//! Hexadecimal quantities as Ethereum JSON-RPC and trace output write
//! them: a two-character prefix (normally `0x`), then hexadecimal digits.

use vstd::prelude::*;
use vstd::utf8::is_char_boundary;
use vstd::string::StringSliceAdditionalSpecFns;

verus! {

/// Why a run of hexadecimal digits does not denote a `u64`, as
/// `u64::from_str_radix` tells it.
#[derive(Clone, Copy, Debug, PartialEq, Eq)]
pub enum HexError {
    /// No digits.
    Empty,
    /// A byte that is not a hexadecimal digit, or a sign with no digits.
    InvalidDigit,
    /// The number does not fit in 64 bits.
    Overflow,
}

/// The value of an ASCII hexadecimal digit, either case.
pub open spec fn hex_digit_value(b: u8) -> Option<nat> {
    if 0x30 <= b <= 0x39 {
        Some((b - 0x30) as nat)
    } else if 0x61 <= b <= 0x66 {
        Some((b - 0x61 + 10) as nat)
    } else if 0x41 <= b <= 0x46 {
        Some((b - 0x41 + 10) as nat)
    } else {
        None
    }
}

/// Reads digits left to right: the first non-digit gives `InvalidDigit`,
/// the first digit that takes the value past `u64::MAX` gives `Overflow`.
pub open spec fn hex_digits_value(d: Seq<u8>) -> Result<nat, HexError>
    decreases d.len(),
{
    if d.len() == 0 {
        Ok(0)
    } else {
        match hex_digits_value(d.drop_last()) {
            Err(e) => Err(e),
            Ok(v) => match hex_digit_value(d.last()) {
                None => Err(HexError::InvalidDigit),
                Some(x) => if v * 16 + x > u64::MAX {
                    Err(HexError::Overflow)
                } else {
                    Ok(v * 16 + x)
                },
            },
        }
    }
}

/// What `u64::from_str_radix(digits, 16)` gives for the bytes `src`: an
/// empty string is `Empty`; a lone sign is `InvalidDigit`; one leading `+`
/// is skipped; the rest is read by `hex_digits_value`.
pub open spec fn parse_hex_u64(src: Seq<u8>) -> Result<u64, HexError> {
    if src.len() == 0 {
        Err(HexError::Empty)
    } else if src.len() == 1 && (src[0] == 0x2b || src[0] == 0x2d) {
        Err(HexError::InvalidDigit)
    } else {
        let digits = if src[0] == 0x2b {
            src.drop_first()
        } else {
            src
        };
        match hex_digits_value(digits) {
            Err(e) => Err(e),
            Ok(v) => Ok(v as u64),
        }
    }
}

/// The value of a prefixed hexadecimal quantity: the first two bytes are
/// skipped, whatever they are, and the rest read as `parse_hex_u64` does.
pub open spec fn hex_quantity(s: Seq<u8>) -> Result<u64, HexError> {
    parse_hex_u64(s.skip(2))
}

/// Reads the hexadecimal digits of `src[start..]`.
fn hex_digits_from(src: &[u8], start: usize) -> (r: Result<u64, HexError>)
    requires
        start <= src@.len(),
    ensures
        match hex_digits_value(src@.skip(start as int)) {
            Ok(v) => r == Ok::<u64, HexError>(v as u64),
            Err(e) => r == Err::<u64, HexError>(e),
        },
{
    let mut value: u64 = 0;
    let mut i = start;
    proof {
        assert(src@.skip(start as int).take(0) =~= Seq::<u8>::empty());
    }
    while i < src.len()
        invariant
            start <= i <= src@.len(),
            hex_digits_value(src@.skip(start as int).take(i - start)) == Ok::<nat, HexError>(value as nat),
        decreases src@.len() - i,
    {
        let ghost pre = src@.skip(start as int).take(i - start);
        let ghost next = src@.skip(start as int).take(i - start + 1);
        proof {
            assert(next.drop_last() =~= pre);
            assert(next.last() == src@[i as int]);
        }
        let b = src[i];
        let digit: u64 = if 0x30 <= b && b <= 0x39 {
            (b - 0x30) as u64
        } else if 0x61 <= b && b <= 0x66 {
            (b - 0x61 + 10) as u64
        } else if 0x41 <= b && b <= 0x46 {
            (b - 0x41 + 10) as u64
        } else {
            proof {
                lemma_digits_error_stays(src@.skip(start as int), (i - start) as int + 1);
            }
            return Err(HexError::InvalidDigit);
        };
        if value > (u64::MAX - digit) / 16 {
            proof {
                assert(value * 16 + digit > u64::MAX) by (nonlinear_arith)
                    requires
                        value > (u64::MAX - digit) / 16,
                        digit < 16,
                ;
                lemma_digits_error_stays(src@.skip(start as int), (i - start) as int + 1);
            }
            return Err(HexError::Overflow);
        }
        proof {
            assert(value * 16 + digit <= u64::MAX) by (nonlinear_arith)
                requires
                    value <= (u64::MAX - digit) / 16,
                    digit < 16,
            ;
        }
        value = value * 16 + digit;
        i = i + 1;
    }
    proof {
        assert(src@.skip(start as int).take(i - start) =~= src@.skip(start as int));
    }
    Ok(value)
}

/// Once a prefix of the digits is refused, the whole is refused the same way.
proof fn lemma_digits_error_stays(d: Seq<u8>, k: int)
    requires
        0 <= k <= d.len(),
        hex_digits_value(d.take(k)) is Err,
    ensures
        hex_digits_value(d) == hex_digits_value(d.take(k)),
    decreases d.len() - k,
{
    if k < d.len() {
        assert(d.take(k + 1).drop_last() =~= d.take(k));
        lemma_digits_error_stays(d, k + 1);
    } else {
        assert(d.take(k) =~= d);
    }
}

/// Reads a prefixed hexadecimal quantity such as `0x1b4`: skips the first
/// two bytes and reads the rest as `u64::from_str_radix` with radix 16
/// does.
pub fn parse_hex_quantity(s: &str) -> (r: Result<u64, HexError>)
    requires
        is_char_boundary(s.spec_bytes(), 2),
    ensures
        r == hex_quantity(s.spec_bytes()),
{
    let bytes = s.as_bytes();
    proof {
        vstd::utf8::encode_utf8_valid_utf8(s@);
    }
    if bytes.len() < 2 {
        proof {
            assert(!is_char_boundary(bytes@, 2));
        }
        return Err(HexError::Empty);
    }
    let ghost src = bytes@.skip(2);
    if bytes.len() == 2 {
        proof {
            assert(src.len() == 0);
        }
        return Err(HexError::Empty);
    }
    if bytes.len() == 3 && (bytes[2] == 0x2b || bytes[2] == 0x2d) {
        return Err(HexError::InvalidDigit);
    }
    let start: usize = if bytes[2] == 0x2b {
        3
    } else {
        2
    };
    proof {
        assert(src[0] == bytes@[2]);
        if bytes@[2] == 0x2b {
            assert(src.drop_first() =~= bytes@.skip(3));
        }
    }
    match hex_digits_from(bytes, start) {
        Ok(v) => Ok(v),
        Err(e) => Err(e),
    }
}

/// The digit that writes the value `d < 16`: `0` to `9`, then `a` to `f`,
/// or `A` to `F` when `upper` holds.
pub open spec fn hex_digit_char(d: nat, upper: bool) -> u8 {
    if d < 10 {
        (0x30 + d) as u8
    } else if upper {
        (0x41 + d - 10) as u8
    } else {
        (0x61 + d - 10) as u8
    }
}

/// The hexadecimal notation of `v`, most significant digit first, without
/// leading zeroes (`0` for zero), as `format!("{:x}")` (or `{:X}`) writes it.
pub open spec fn hex_notation(v: nat, upper: bool) -> Seq<u8>
    decreases v,
{
    if v < 16 {
        seq![hex_digit_char(v, upper)]
    } else {
        hex_notation(v / 16, upper).push(hex_digit_char(v % 16, upper))
    }
}

proof fn lemma_digit_char_value(d: nat, upper: bool)
    requires
        d < 16,
    ensures
        hex_digit_value(hex_digit_char(d, upper)) == Some(d),
{
}

proof fn lemma_notation_digits_value(v: nat, upper: bool)
    requires
        v <= u64::MAX,
    ensures
        hex_digits_value(hex_notation(v, upper)) == Ok::<nat, HexError>(v),
        hex_notation(v, upper).len() >= 1,
        hex_notation(v, upper)[0] != 0x2b,
        hex_notation(v, upper)[0] != 0x2d,
    decreases v,
{
    let n = hex_notation(v, upper);
    if v < 16 {
        lemma_digit_char_value(v, upper);
        assert(n.drop_last() =~= Seq::<u8>::empty());
        assert(hex_digits_value(Seq::<u8>::empty()) == Ok::<nat, HexError>(0));
        assert(n.last() == hex_digit_char(v, upper));
    } else {
        let prev = hex_notation(v / 16, upper);
        lemma_notation_digits_value(v / 16, upper);
        lemma_digit_char_value(v % 16, upper);
        assert(n.drop_last() =~= prev);
        assert(n.last() == hex_digit_char(v % 16, upper));
        assert((v / 16) * 16 + v % 16 == v);
        assert(n[0] == prev[0]);
    }
}

/// Reading `0x` and the hexadecimal notation of any `u64`, in either case,
/// gives that number back.
pub proof fn lemma_hex_notation_reads_back(v: u64, upper: bool)
    ensures
        hex_quantity(seq![0x30u8, 0x78] + hex_notation(v as nat, upper)) == Ok::<u64, HexError>(v),
{
    let n = hex_notation(v as nat, upper);
    lemma_notation_digits_value(v as nat, upper);
    assert((seq![0x30u8, 0x78] + n).skip(2) =~= n);
}

proof fn lemma_notation_overflows(v: nat, upper: bool)
    requires
        v > u64::MAX,
    ensures
        hex_digits_value(hex_notation(v, upper)) == Err::<nat, HexError>(HexError::Overflow),
        hex_notation(v, upper)[0] != 0x2b,
    decreases v,
{
    let n = hex_notation(v, upper);
    let prev = hex_notation(v / 16, upper);
    assert(n.drop_last() =~= prev);
    assert(n.last() == hex_digit_char(v % 16, upper));
    lemma_digit_char_value(v % 16, upper);
    assert((v / 16) * 16 + v % 16 == v);
    if v / 16 > u64::MAX {
        lemma_notation_overflows(v / 16, upper);
    } else {
        lemma_notation_digits_value(v / 16, upper);
    }
    assert(n[0] == prev[0]);
}

/// Reading `0x` and the hexadecimal notation of a number above `u64::MAX`
/// reports an overflow.
pub proof fn lemma_hex_notation_overflows(v: nat, upper: bool)
    requires
        v > u64::MAX,
    ensures
        hex_quantity(seq![0x30u8, 0x78] + hex_notation(v, upper)) == Err::<u64, HexError>(HexError::Overflow),
{
    let n = hex_notation(v, upper);
    lemma_notation_overflows(v, upper);
    assert((seq![0x30u8, 0x78] + n).skip(2) =~= n);
    assert(n.len() >= 2) by {
        assert(v >= 16);
        assert(n =~= hex_notation(v / 16, upper).push(hex_digit_char(v % 16, upper)));
        if v / 16 > u64::MAX {
            lemma_notation_overflows(v / 16, upper);
        } else {
            lemma_notation_digits_value(v / 16, upper);
        }
    }
}

/// Each digit, of either case, has its value.
pub proof fn lemma_hex_digit_values(d: nat)
    requires
        d < 16,
    ensures
        hex_digit_value(hex_digit_char(d, false)) == Some(d),
        hex_digit_value(hex_digit_char(d, true)) == Some(d),
{
}

} // verus!
