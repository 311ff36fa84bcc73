//! The data-writing commands' decision logic: turning command
//! arguments into the bytes and sizes handed to the engine.

use crate::helper::{num_parses, num_value, str_to_num};
use crate::srec::{is_hex_digit_spec, pair_at};
use crate::utils::IoError;
use vstd::prelude::*;
use vstd::string::StringSliceAdditionalSpecFns;

verus! {

/// Writes hex-pair data at the current location.
pub struct WriteHex;

impl WriteHex {
    /// Decodes a command argument of hexadecimal pairs into bytes.
    ///
    /// Fails exactly on an odd number of characters, or on a character
    /// that is no hexadecimal digit.
    pub fn parse_hexpairs(arg: &str) -> (r: Result<Vec<u8>, IoError>)
        ensures
            ({
                let s = arg.spec_bytes();
                &&& r is Ok <==> (s.len() % 2 == 0 && forall|j: int|
                    0 <= j < s.len() ==> is_hex_digit_spec(#[trigger] s[j]))
                &&& r matches Ok(v) ==> v@.len() == s.len() / 2 && forall|k: int|
                    0 <= k < v@.len() ==> (#[trigger] v@[k]) == pair_at(s, 2 * k)
            }),
    {
        let bs = arg.as_bytes();
        let n = bs.len();
        if n % 2 != 0 {
            return Err(
                IoError::Custom("Data can't have odd number of digits".to_owned()),
            );
        }
        let mut out: Vec<u8> = Vec::new();
        let mut i: usize = 0;
        while i < n
            invariant
                0 <= i <= n,
                bs@ == arg.spec_bytes(),
                n == bs@.len(),
                n <= usize::MAX,
                n % 2 == 0,
                i % 2 == 0,
                out@.len() == i / 2,
                forall|j: int| 0 <= j < i ==> is_hex_digit_spec(#[trigger] bs@[j]),
                forall|k: int| 0 <= k < out@.len() ==> (#[trigger] out@[k]) == pair_at(bs@, 2 * k),
            decreases n - i,
        {
            if !crate::srec::is_hex_digit(bs[i]) || !crate::srec::is_hex_digit(bs[i + 1]) {
                return Err(IoError::Custom("invalid digit found in string".to_owned()));
            }
            let hi = bs[i];
            let lo = bs[i + 1];
            let hv: u8 = if hi >= 48 && hi <= 57 {
                hi - 48
            } else if hi >= 97 && hi <= 102 {
                hi - 87
            } else {
                hi - 55
            };
            let lv: u8 = if lo >= 48 && lo <= 57 {
                lo - 48
            } else if lo >= 97 && lo <= 102 {
                lo - 87
            } else {
                lo - 55
            };
            out.push(hv * 16 + lv);
            proof {
                assert(out@[out@.len() - 1] == pair_at(bs@, i as int));
            }
            i = i + 2;
        }
        Ok(out)
    }
}

/// Writes a stretch of bytes at the current location to a file.
pub struct WriteToFile;

impl WriteToFile {
    /// Reads the size argument of the command, with the engine's
    /// numeric prefix conventions, exactly as `str_to_num` does.
    pub fn parse_size(arg: &str) -> (r: Result<u64, IoError>)
        requires
            arg.spec_bytes().len() >= 1,
        ensures
            r is Ok <==> num_parses(arg.spec_bytes(), 0),
            r matches Ok(v) ==> v == num_value(arg.spec_bytes(), 0),
    {
        str_to_num(arg)
    }
}

} // verus!
