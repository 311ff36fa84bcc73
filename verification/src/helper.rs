//! Numeric parsing and small helpers shared by the engine's callers.

use crate::utils::IoError;
use vstd::prelude::*;
use vstd::string::StringSliceAdditionalSpecFns;

verus! {

/// Whether an address is to be resolved through the virtual or the
/// physical space.
#[derive(Debug, Clone, Copy, PartialEq, Eq, Structural)]
pub enum AddrMode {
    Vir,
    Phy,
}

impl AddrMode {
    /// The mode's display name.
    pub fn mode_str(&self) -> (r: &'static str)
        ensures
            *self is Phy ==> r@ == "Phy"@,
            *self is Vir ==> r@ == "Vir"@,
    {
        match self {
            AddrMode::Phy => "Phy",
            AddrMode::Vir => "Vir",
        }
    }
}

/// The numeric value of one digit character, for radices up to 36;
/// a sentinel too large for any radix on everything else.
pub open spec fn digit_val(c: u8) -> int {
    if 48 <= c <= 57 {
        c - 48
    } else if 97 <= c <= 122 {
        c - 87
    } else if 65 <= c <= 90 {
        c - 55
    } else {
        99
    }
}

/// The character is a digit of the given radix.
pub open spec fn digit_ok(c: u8, radix: int) -> bool {
    digit_val(c) < radix
}

/// From index `i` to the end stand only digits of the radix, at least
/// one.
pub open spec fn digits_valid(s: Seq<u8>, i: int, radix: int) -> bool {
    &&& i < s.len()
    &&& forall|j: int| i <= j < s.len() ==> digit_ok(#[trigger] s[j], radix)
}

/// The number denoted by the digits from `i` on, accumulated onto
/// `acc` left to right.
pub open spec fn num_val(s: Seq<u8>, radix: int, i: int, acc: int) -> int
    decreases s.len() - i,
{
    if i < 0 || i >= s.len() {
        acc
    } else {
        num_val(s, radix, i + 1, acc * radix + digit_val(s[i]))
    }
}

/// The index where the digits start: one past a single leading plus
/// sign, as the standard library's radix parsing accepts.
pub open spec fn body_start(s: Seq<u8>, i: int) -> int {
    if i < s.len() && s[i] == 43 {
        i + 1
    } else {
        i
    }
}

/// The value grows along the accumulation.
proof fn lemma_num_val_monotone(s: Seq<u8>, radix: int, i: int, acc: int)
    requires
        radix >= 2,
        acc >= 0,
        forall|j: int| i <= j < s.len() ==> digit_ok(#[trigger] s[j], radix) && digit_val(s[j]) >= 0,
    ensures
        num_val(s, radix, i, acc) >= acc,
    decreases s.len() - i,
{
    if i < 0 || i >= s.len() {
    } else {
        assert(acc * radix >= acc) by (nonlinear_arith)
            requires
                acc >= 0,
                radix >= 2,
        ;
        assert(digit_val(s[i]) >= 0);
        lemma_num_val_monotone(s, radix, i + 1, acc * radix + digit_val(s[i]));
    }
}

/// Parses the digits of `bs` from `start` on in the given radix, with
/// an optional leading plus sign.
///
/// Succeeds exactly when at least one digit follows and the value fits
/// 64 bits, yielding that value.
pub fn parse_radix_bytes(bs: &[u8], start: usize, radix: u64) -> (r: Result<u64, IoError>)
    requires
        2 <= radix <= 36,
        start <= bs@.len(),
    ensures
        ({
            let b = body_start(bs@, start as int);
            &&& r is Ok <==> (digits_valid(bs@, b, radix as int) && num_val(
                bs@,
                radix as int,
                b,
                0,
            ) <= u64::MAX)
            &&& r matches Ok(v) ==> v == num_val(bs@, radix as int, b, 0)
            &&& r matches Err(e) ==> e is Custom
        }),
{
    let n = bs.len();
    let mut i = start;
    if i < n && bs[i] == 43 {
        i = i + 1;
    }
    let ghost b = i as int;
    if i >= n {
        return Err(IoError::Custom("cannot parse integer from empty string".to_owned()));
    }
    let mut acc: u64 = 0;
    while i < n
        invariant
            b == body_start(bs@, start as int),
            b <= i <= n,
            n == bs@.len(),
            n <= usize::MAX,
            2 <= radix <= 36,
            forall|j: int| b <= j < i ==> digit_ok(#[trigger] bs@[j], radix as int),
            num_val(bs@, radix as int, b, 0) == num_val(bs@, radix as int, i as int, acc as int),
        decreases n - i,
    {
        let c = bs[i];
        let d: u64 = if c >= 48 && c <= 57 {
            (c - 48) as u64
        } else if c >= 97 && c <= 122 {
            (c - 87) as u64
        } else if c >= 65 && c <= 90 {
            (c - 55) as u64
        } else {
            99
        };
        if d >= radix {
            proof {
                assert(!digit_ok(bs@[i as int], radix as int));
            }
            return Err(IoError::Custom("invalid digit found in string".to_owned()));
        }
        if acc > (u64::MAX - d) / radix {
            proof {
                assert(acc as int * radix as int + d as int > u64::MAX) by (nonlinear_arith)
                    requires
                        acc as int > (u64::MAX - d) as int / radix as int,
                        2 <= radix && radix <= 36,
                        0 <= d && (d as int) < radix as int,
                ;
                if digits_valid(bs@, b, radix as int) {
                    assert(d == digit_val(bs@[i as int]));
                    assert(num_val(bs@, radix as int, i as int, acc as int) == num_val(
                        bs@,
                        radix as int,
                        i as int + 1,
                        acc as int * radix + d,
                    ));
                    assert forall|j: int|
                        i + 1 <= j < bs@.len() implies digit_ok(#[trigger] bs@[j], radix as int)
                        && digit_val(bs@[j]) >= 0 by {}
                    lemma_num_val_monotone(
                        bs@,
                        radix as int,
                        i as int + 1,
                        acc as int * radix + d,
                    );
                    assert(num_val(bs@, radix as int, b, 0) > u64::MAX);
                }
            }
            return Err(IoError::Custom("number too large to fit in target type".to_owned()));
        }
        proof {
            assert(acc as int * radix as int + d as int <= u64::MAX) by (nonlinear_arith)
                requires
                    acc as int <= (u64::MAX - d) as int / radix as int,
                    2 <= radix && radix <= 36,
                    0 <= d && (d as int) < radix as int,
            ;
        }
        acc = acc * radix + d;
        i = i + 1;
    }
    Ok(acc)
}

/// The radix selected by the prefix conventions at `start`: `0b`/`0B`
/// binary, `0x`/`0X` hexadecimal, a leading `0` octal, else decimal.
pub open spec fn num_radix(s: Seq<u8>, start: int) -> int {
    let two = s.len() >= start + 2 && s[start] == 48;
    let bin = two && (s[start + 1] == 98 || s[start + 1] == 66);
    let hex = two && (s[start + 1] == 120 || s[start + 1] == 88);
    let oct = !bin && !hex && start < s.len() && s[start] == 48;
    if bin {
        2
    } else if hex {
        16
    } else if oct {
        8
    } else {
        10
    }
}

/// Where the digits begin once the radix prefix and an optional plus
/// sign are skipped.
pub open spec fn num_body(s: Seq<u8>, start: int) -> int {
    let two = s.len() >= start + 2 && s[start] == 48;
    let bin = two && (s[start + 1] == 98 || s[start + 1] == 66);
    let hex = two && (s[start + 1] == 120 || s[start + 1] == 88);
    let oct = !bin && !hex && start < s.len() && s[start] == 48;
    let d0: int = if bin || hex {
        start + 2
    } else if oct {
        start + 1
    } else {
        start
    };
    body_start(s, d0)
}

/// The text at `start` is a number under the prefix conventions whose
/// value fits 64 bits.
pub open spec fn num_parses(s: Seq<u8>, start: int) -> bool {
    digits_valid(s, num_body(s, start), num_radix(s, start)) && num_val(
        s,
        num_radix(s, start),
        num_body(s, start),
        0,
    ) <= u64::MAX
}

/// The number the text at `start` denotes.
pub open spec fn num_value(s: Seq<u8>, start: int) -> int {
    num_val(s, num_radix(s, start), num_body(s, start), 0)
}

/// Reads a number starting at `start`, with the engine's prefix
/// conventions: `0b` or `0B` for binary, `0x` or `0X` for hexadecimal,
/// a leading `0` for octal, and decimal otherwise.
pub fn num_from_bytes(bs: &[u8], start: usize) -> (r: Result<u64, IoError>)
    requires
        start < bs@.len(),
    ensures
        r is Ok <==> num_parses(bs@, start as int),
        r matches Ok(v) ==> v == num_value(bs@, start as int),
        r matches Err(e) ==> e is Custom,
{
    let n = bs.len();
    if n - start >= 2 && bs[start] == 48 && (bs[start + 1] == 98 || bs[start + 1] == 66) {
        return parse_radix_bytes(bs, start + 2, 2);
    }
    if n - start >= 2 && bs[start] == 48 && (bs[start + 1] == 120 || bs[start + 1] == 88) {
        return parse_radix_bytes(bs, start + 2, 16);
    }
    if bs[start] == 48 {
        return parse_radix_bytes(bs, start + 1, 8);
    }
    parse_radix_bytes(bs, start, 10)
}

/// Reads a number written with the engine's prefix conventions: `0b`
/// or `0B` for binary, `0x` or `0X` for hexadecimal, a leading `0` for
/// octal, and decimal otherwise.
pub fn str_to_num(n: &str) -> (r: Result<u64, IoError>)
    requires
        n.spec_bytes().len() >= 1,
    ensures
        r is Ok <==> num_parses(n.spec_bytes(), 0),
        r matches Ok(v) ==> v == num_value(n.spec_bytes(), 0),
{
    let bs = n.as_bytes();
    num_from_bytes(bs, 0)
}

} // verus!
