//! Motorola S-record codec: a line-based record parser and regenerator
//! over a sparse byte map, with checksums.
//!
//! Each line is `S<k><count><address><data><checksum><newline>` with
//! `k` in {0,1,2,3,5,6,7,8,9}. The address is 16 bits wide for kinds
//! 0, 1, 5 and 9, 24 bits for 2, 6 and 8, and 32 bits for 3 and 7; the
//! count byte covers the address, data and checksum bytes. Parsing does
//! not validate checksums; regeneration recomputes them.

use crate::utils::{IoError, IoMode};
use vstd::prelude::*;

verus! {

/// A sparse array of bytes: strictly address-sorted `(address, byte)`
/// pairs.
pub struct SparseBytes {
    entries: Vec<(u64, u8)>,
}

/// The byte stored at address `a`, if any.
pub open spec fn spec_get(s: Seq<(u64, u8)>, a: u64) -> Option<u8>
    decreases s.len(),
{
    if s.len() == 0 {
        None
    } else if s[0].0 == a {
        Some(s[0].1)
    } else {
        spec_get(s.skip(1), a)
    }
}

impl SparseBytes {
    /// The pairs held, in increasing address order.
    pub closed spec fn model(&self) -> Seq<(u64, u8)> {
        self.entries@
    }

    /// Addresses strictly increasing.
    pub open spec fn wf(&self) -> bool {
        forall|i: int, j: int|
            0 <= i < j < self.model().len() ==> (#[trigger] self.model()[i]).0
                < (#[trigger] self.model()[j]).0
    }

    /// The byte visible at address `a`: the stored byte, or zero where
    /// nothing is stored.
    pub open spec fn byte_at(&self, a: u64) -> u8 {
        match spec_get(self.model(), a) {
            Some(b) => b,
            None => 0,
        }
    }

    pub fn new() -> (r: SparseBytes)
        ensures
            r.model() == Seq::<(u64, u8)>::empty(),
            r.wf(),
    {
        SparseBytes { entries: Vec::new() }
    }

    /// Number of populated addresses.
    pub fn len(&self) -> (r: usize)
        ensures
            r == self.model().len(),
    {
        self.entries.len()
    }

    /// The `i`-th populated pair in address order.
    pub fn entry(&self, i: usize) -> (r: (u64, u8))
        requires
            i < self.model().len(),
        ensures
            r == self.model()[i as int],
    {
        self.entries[i]
    }

    /// The lowest populated address, with its byte.
    pub fn first(&self) -> (r: Option<(u64, u8)>)
        ensures
            self.model().len() == 0 <==> r is None,
            self.model().len() > 0 ==> r == Some(self.model()[0]),
    {
        if self.entries.len() == 0 {
            None
        } else {
            Some(self.entries[0])
        }
    }

    /// The highest populated address, with its byte.
    pub fn last(&self) -> (r: Option<(u64, u8)>)
        ensures
            self.model().len() == 0 <==> r is None,
            self.model().len() > 0 ==> r == Some(self.model()[self.model().len() - 1]),
    {
        if self.entries.len() == 0 {
            None
        } else {
            Some(self.entries[self.entries.len() - 1])
        }
    }

    /// Looks the address up.
    pub fn get(&self, a: u64) -> (r: Option<u8>)
        requires
            self.wf(),
        ensures
            r == spec_get(self.model(), a),
    {
        let ghost m = self.model();
        let mut i: usize = 0;
        while i < self.entries.len()
            invariant
                0 <= i <= self.entries.len(),
                m == self.model(),
                self.wf(),
                forall|j: int| 0 <= j < i ==> (#[trigger] m[j]).0 != a,
            decreases self.entries.len() - i,
        {
            if self.entries[i].0 == a {
                proof {
                    lemma_spec_get_found(m, a, i as int);
                }
                return Some(self.entries[i].1);
            }
            i = i + 1;
        }
        proof {
            lemma_spec_get_absent(m, a);
        }
        None
    }

    /// Stores `b` at address `a`, overwriting any byte already there.
    pub fn set(&mut self, a: u64, b: u8)
        requires
            old(self).wf(),
        ensures
            final(self).wf(),
            forall|x: u64|
                #![all_triggers]
                spec_get(final(self).model(), x) == if x == a {
                    Some(b)
                } else {
                    spec_get(old(self).model(), x)
                },
            final(self).model().len() <= old(self).model().len() + 1,
            old(self).model().len() <= final(self).model().len(),
    {
        let ghost m = self.model();
        let mut pos: usize = 0;
        while pos < self.entries.len() && self.entries[pos].0 < a
            invariant
                0 <= pos <= self.entries.len(),
                m == self.model(),
                self.wf(),
                forall|j: int| 0 <= j < pos ==> (#[trigger] m[j]).0 < a,
            decreases self.entries.len() - pos,
        {
            pos = pos + 1;
        }
        if pos < self.entries.len() && self.entries[pos].0 == a {
            let mut e = self.entries.remove(pos);
            e.1 = b;
            self.entries.insert(pos, e);
            proof {
                assert(self.model() =~= m.update(pos as int, (a, b)));
                assert forall|i: int, j: int|
                    0 <= i < j < self.model().len() implies (#[trigger] self.model()[i]).0
                    < (#[trigger] self.model()[j]).0 by {
                    assert(self.model()[i].0 == m[i].0);
                    assert(self.model()[j].0 == m[j].0);
                }
                lemma_spec_get_update(m, self.model(), a, b, pos as int);
            }
        } else {
            self.entries.insert(pos, (a, b));
            proof {
                assert(self.model() =~= m.subrange(0, pos as int) + seq![(a, b)] + m.skip(
                    pos as int,
                ));
                assert forall|i: int| 0 <= i < self.model().len() implies (
                #[trigger] self.model()[i]) == (if i < pos as int {
                    m[i]
                } else if i == pos as int {
                    (a, b)
                } else {
                    m[i - 1]
                }) by {}
                assert forall|i: int, j: int|
                    0 <= i < j < self.model().len() implies (#[trigger] self.model()[i]).0
                    < (#[trigger] self.model()[j]).0 by {
                    if pos < m.len() {
                        assert(!(m[pos as int].0 < a) && m[pos as int].0 != a);
                    }
                }
                lemma_spec_get_insert(m, self.model(), a, b, pos as int);
            }
        }
    }
}

/// Finding the key at a position of a sorted pair list resolves the
/// lookup.
proof fn lemma_spec_get_found(m: Seq<(u64, u8)>, a: u64, i: int)
    requires
        0 <= i < m.len(),
        m[i].0 == a,
        forall|j: int| 0 <= j < i ==> (#[trigger] m[j]).0 != a,
    ensures
        spec_get(m, a) == Some(m[i].1),
    decreases i,
{
    if i == 0 {
    } else {
        lemma_spec_get_found(m.skip(1), a, i - 1);
    }
}

/// A key found at no position is absent from the lookup.
proof fn lemma_spec_get_absent(m: Seq<(u64, u8)>, a: u64)
    requires
        forall|j: int| 0 <= j < m.len() ==> (#[trigger] m[j]).0 != a,
    ensures
        spec_get(m, a) is None,
    decreases m.len(),
{
    if m.len() == 0 {
    } else {
        lemma_spec_get_absent(m.skip(1), a);
    }
}

/// Overwriting one position changes exactly that key's lookup.
proof fn lemma_spec_get_update(m: Seq<(u64, u8)>, m2: Seq<(u64, u8)>, a: u64, b: u8, pos: int)
    requires
        0 <= pos < m.len(),
        m[pos].0 == a,
        m2 == m.update(pos, (a, b)),
        forall|i: int, j: int| 0 <= i < j < m.len() ==> (#[trigger] m[i]).0 < (#[trigger] m[j]).0,
    ensures
        forall|x: u64|
            #![all_triggers]
            spec_get(m2, x) == if x == a {
                Some(b)
            } else {
                spec_get(m, x)
            },
{
    assert forall|x: u64|
        #![all_triggers]
        spec_get(m2, x) == (if x == a {
            Some(b)
        } else {
            spec_get(m, x)
        }) by {
        if x == a {
            assert forall|j: int| 0 <= j < pos implies (#[trigger] m2[j]).0 != a by {
                assert(m[j].0 < m[pos].0);
            }
            lemma_spec_get_found(m2, a, pos);
        } else {
            lemma_spec_get_frame(m, m2, x);
        }
    }
}

/// Two pair lists agreeing on every position holding key `x` agree on
/// its lookup.
proof fn lemma_spec_get_frame(m: Seq<(u64, u8)>, m2: Seq<(u64, u8)>, x: u64)
    requires
        m.len() == m2.len(),
        forall|i: int|
            0 <= i < m.len() ==> ((#[trigger] m[i]).0 == x || (#[trigger] m2[i]).0 == x ==> m[i]
                == m2[i]),
    ensures
        spec_get(m, x) == spec_get(m2, x),
    decreases m.len(),
{
    if m.len() == 0 {
    } else {
        if m[0].0 == x || m2[0].0 == x {
            assert(m[0] == m2[0]);
        }
        assert forall|i: int|
            0 <= i < m.skip(1).len() implies ((#[trigger] m.skip(1)[i]).0 == x || (
        #[trigger] m2.skip(1)[i]).0 == x ==> m.skip(1)[i] == m2.skip(1)[i]) by {
            assert(m.skip(1)[i] == m[i + 1]);
            assert(m2.skip(1)[i] == m2[i + 1]);
        }
        lemma_spec_get_frame(m.skip(1), m2.skip(1), x);
    }
}

/// Inserting a fresh key at its sorted position adds exactly that
/// key's lookup.
proof fn lemma_spec_get_insert(m: Seq<(u64, u8)>, m2: Seq<(u64, u8)>, a: u64, b: u8, pos: int)
    requires
        0 <= pos <= m.len(),
        forall|j: int| 0 <= j < m.len() ==> (#[trigger] m[j]).0 != a,
        m2 == m.subrange(0, pos) + seq![(a, b)] + m.skip(pos),
    ensures
        forall|x: u64|
            #![all_triggers]
            spec_get(m2, x) == if x == a {
                Some(b)
            } else {
                spec_get(m, x)
            },
    decreases pos,
{
    assert forall|i: int| 0 <= i < m2.len() implies (#[trigger] m2[i]) == (if i < pos {
        m[i]
    } else if i == pos {
        (a, b)
    } else {
        m[i - 1]
    }) by {}
    if pos == 0 {
        assert(m2[0] == (a, b));
        assert forall|x: u64|
            #![all_triggers]
            spec_get(m2, x) == (if x == a {
                Some(b)
            } else {
                spec_get(m, x)
            }) by {
            if x == a {
            } else {
                assert(m2.skip(1) =~= m);
            }
        }
    } else {
        assert(m2.skip(1) =~= m.skip(1).subrange(0, pos - 1) + seq![(a, b)] + m.skip(1).skip(
            pos - 1,
        ));
        lemma_spec_get_insert(m.skip(1), m2.skip(1), a, b, pos - 1);
        assert forall|x: u64|
            #![all_triggers]
            spec_get(m2, x) == (if x == a {
                Some(b)
            } else {
                spec_get(m, x)
            }) by {
            assert(m2[0] == m[0]);
            assert(m[0].0 != a);
            if x == a {
                assert(spec_get(m2, x) == spec_get(m2.skip(1), x));
            } else {
                assert(spec_get(m2, x) == if m2[0].0 == x {
                    Some(m2[0].1)
                } else {
                    spec_get(m2.skip(1), x)
                });
            }
        }
    }
}

/// One parsed record line.
#[derive(Debug, PartialEq, Eq)]
pub enum Record {
    /// S0: header bytes, preserved across a rewrite.
    Header(Vec<u8>),
    /// S1, S2 or S3: a block of bytes at a base address.
    Data(u64, Vec<u8>),
    /// S5 or S6: a record count; parsed but unused.
    Count(u64),
    /// S7, S8 or S9: end of file, with the start address.
    Eof(u64),
}

/// The spec-level reading of a record.
pub ghost enum RecordSpec {
    Header(Seq<u8>),
    Data(u64, Seq<u8>),
    Count(u64),
    Eof(u64),
}

/// What a parsed record denotes.
pub open spec fn rec_model(r: Record) -> RecordSpec {
    match r {
        Record::Header(h) => RecordSpec::Header(h@),
        Record::Data(a, d) => RecordSpec::Data(a, d@),
        Record::Count(c) => RecordSpec::Count(c),
        Record::Eof(a) => RecordSpec::Eof(a),
    }
}

/// ASCII hexadecimal digit.
pub open spec fn is_hex_digit_spec(c: u8) -> bool {
    (48 <= c <= 57) || (97 <= c <= 102) || (65 <= c <= 70)
}

/// Value of one hexadecimal digit; zero on a non-digit.
pub open spec fn hex_val(c: u8) -> u8 {
    if 48 <= c <= 57 {
        (c - 48) as u8
    } else if 97 <= c <= 102 {
        (c - 87) as u8
    } else if 65 <= c <= 70 {
        (c - 55) as u8
    } else {
        0
    }
}

/// Value of the two hexadecimal digits at position `i`.
pub open spec fn pair_at(s: Seq<u8>, i: int) -> u8 {
    ((hex_val(s[i]) as int) * 16 + hex_val(s[i + 1]) as int) as u8
}

/// `n` pairs of hexadecimal digits stand at position `i`.
pub open spec fn hexpairs_ok(s: Seq<u8>, i: int, n: int) -> bool {
    &&& i >= 0
    &&& n >= 0
    &&& i + 2 * n <= s.len()
    &&& forall|j: int| i <= j < i + 2 * n ==> is_hex_digit_spec(#[trigger] s[j])
}

/// The `n` bytes decoded from the hex pairs at position `i`.
pub open spec fn decoded(s: Seq<u8>, i: int, n: int) -> Seq<u8> {
    Seq::new(n as nat, |j: int| pair_at(s, i + 2 * j))
}

/// Big-endian value of the `ab` hex pairs at position `i`.
pub open spec fn be_val(s: Seq<u8>, i: int, ab: int) -> u64
    decreases ab,
{
    if ab <= 0 {
        0
    } else {
        ((be_val(s, i, ab - 1) as int) * 256 + pair_at(s, i + 2 * (ab - 1)) as int) as u64
    }
}

/// Length of the line terminator at position `i`: CRLF, LF or CR; zero
/// when none stands there.
pub open spec fn newline_len(s: Seq<u8>, i: int) -> int {
    if 0 <= i < s.len() && s[i] == 13 {
        if i + 1 < s.len() && s[i + 1] == 10 {
            2
        } else {
            1
        }
    } else if 0 <= i < s.len() && s[i] == 10 {
        1
    } else {
        0
    }
}

/// A data-shaped record at `pos`: `S<tag>`, a count pair, `ab` address
/// pairs, the data pairs, a checksum pair and a newline. Yields the
/// position after the newline, the address and the data bytes. The
/// checksum is not validated.
pub open spec fn data_record_at(s: Seq<u8>, pos: int, tag: u8, ab: int) -> Option<
    (int, u64, Seq<u8>),
> {
    if pos >= 0 && pos + 4 <= s.len() && s[pos] == 83 && s[pos + 1] == tag && hexpairs_ok(
        s,
        pos + 2,
        1,
    ) {
        let count = pair_at(s, pos + 2) as int;
        if count >= ab + 1 && hexpairs_ok(s, pos + 4, count) {
            let after = pos + 4 + 2 * count;
            let nl = newline_len(s, after);
            if nl > 0 {
                Some((after + nl, be_val(s, pos + 4, ab), decoded(s, pos + 4 + 2 * ab, count - ab - 1)))
            } else {
                None
            }
        } else {
            None
        }
    } else {
        None
    }
}

/// A fixed-count record at `pos`: the four literal characters
/// `S<tag>0<cc>`, `ab` value pairs, a checksum pair, and — when
/// `nl_required` — a newline. Yields the position after it and the
/// value.
pub open spec fn fixed_record_at(
    s: Seq<u8>,
    pos: int,
    tag: u8,
    cc: u8,
    ab: int,
    nl_required: bool,
) -> Option<(int, u64)> {
    if pos >= 0 && pos + 4 <= s.len() && s[pos] == 83 && s[pos + 1] == tag && s[pos + 2] == 48 && s[
        pos + 3] == cc && hexpairs_ok(s, pos + 4, ab + 1) {
        let after = pos + 4 + 2 * (ab + 1);
        if nl_required {
            let nl = newline_len(s, after);
            if nl > 0 {
                Some((after + nl, be_val(s, pos + 4, ab)))
            } else {
                None
            }
        } else {
            Some((after, be_val(s, pos + 4, ab)))
        }
    } else {
        None
    }
}

/// The record standing at `pos`, whichever of the nine kinds matches.
pub open spec fn record_at(s: Seq<u8>, pos: int) -> Option<(int, RecordSpec)> {
    if let Some((np, _, d)) = data_record_at(s, pos, 48, 2) {
        Some((np, RecordSpec::Header(d)))
    } else if let Some((np, a, d)) = data_record_at(s, pos, 49, 2) {
        Some((np, RecordSpec::Data(a, d)))
    } else if let Some((np, a, d)) = data_record_at(s, pos, 50, 3) {
        Some((np, RecordSpec::Data(a, d)))
    } else if let Some((np, a, d)) = data_record_at(s, pos, 51, 4) {
        Some((np, RecordSpec::Data(a, d)))
    } else if let Some((np, v)) = fixed_record_at(s, pos, 53, 51, 2, true) {
        Some((np, RecordSpec::Count(v)))
    } else if let Some((np, v)) = fixed_record_at(s, pos, 54, 52, 3, true) {
        Some((np, RecordSpec::Count(v)))
    } else if let Some((np, v)) = fixed_record_at(s, pos, 55, 53, 4, false) {
        Some((np, RecordSpec::Eof(v)))
    } else if let Some((np, v)) = fixed_record_at(s, pos, 56, 52, 3, false) {
        Some((np, RecordSpec::Eof(v)))
    } else if let Some((np, v)) = fixed_record_at(s, pos, 57, 51, 2, false) {
        Some((np, RecordSpec::Eof(v)))
    } else {
        None
    }
}

/// ASCII hexadecimal digit test.
pub fn is_hex_digit(c: u8) -> (r: bool)
    ensures
        r == is_hex_digit_spec(c),
{
    (c >= 48 && c <= 57) || (c >= 97 && c <= 102) || (c >= 65 && c <= 70)
}

/// Value of one hexadecimal digit.
fn hex_digit_val(c: u8) -> (r: u8)
    ensures
        r == hex_val(c),
        r <= 15,
{
    if c >= 48 && c <= 57 {
        c - 48
    } else if c >= 97 && c <= 102 {
        c - 87
    } else if c >= 65 && c <= 70 {
        c - 55
    } else {
        0
    }
}

/// Reads a sequence of hexadecimal digits as one byte.
///
/// Succeeds exactly on one or two hex digits, yielding their big-endian
/// value; an empty input, a non-digit, or more than two digits (whose
/// value would overflow a byte) fail.
pub fn from_hex(input: &[u8]) -> (r: Result<u8, IoError>)
    ensures
        r is Ok <==> (1 <= input@.len() <= 2 && forall|j: int|
            0 <= j < input@.len() ==> is_hex_digit_spec(#[trigger] input@[j])),
        r matches Ok(v) ==> (if input@.len() == 1 {
            v == hex_val(input@[0])
        } else {
            v == pair_at(input@, 0)
        }),
{
    if input.len() == 0 || input.len() > 2 {
        return Err(IoError::Custom(String::new()));
    }
    let mut i: usize = 0;
    while i < input.len()
        invariant
            0 <= i <= input@.len(),
            forall|j: int| 0 <= j < i ==> is_hex_digit_spec(#[trigger] input@[j]),
        decreases input.len() - i,
    {
        if !is_hex_digit(input[i]) {
            return Err(IoError::Custom(String::new()));
        }
        i = i + 1;
    }
    if input.len() == 1 {
        Ok(hex_digit_val(input[0]))
    } else {
        Ok(hex_digit_val(input[0]) * 16 + hex_digit_val(input[1]))
    }
}

/// Reads the two hexadecimal digits at `i` as one byte.
fn read_pair(input: &[u8], i: usize) -> (r: u8)
    requires
        i + 2 <= input@.len(),
    ensures
        r == pair_at(input@, i as int),
{
    hex_digit_val(input[i]) * 16 + hex_digit_val(input[i + 1])
}

/// Parses a data-shaped record: the worker behind the S0 to S3 parsers.
fn parse_data_like(input: &[u8], pos: usize, tag: u8, ab: usize) -> (r: Option<
    (usize, u64, Vec<u8>),
>)
    requires
        2 <= ab <= 4,
    ensures
        ({
            let sp = data_record_at(input@, pos as int, tag, ab as int);
            match r {
                None => sp is None,
                Some((np, addr, data)) => sp == Some((np as int, addr, data@)),
            }
        }),
{
    let n = input.len();
    if n < 4 || pos > n - 4 {
        return None;
    }
    if input[pos] != 83 || input[pos + 1] != tag {
        return None;
    }
    if !is_hex_digit(input[pos + 2]) || !is_hex_digit(input[pos + 3]) {
        return None;
    }
    let count = read_pair(input, pos + 2) as usize;
    if count < ab + 1 {
        return None;
    }
    if n - (pos + 4) < 2 * count {
        return None;
    }
    let mut j: usize = 0;
    while j < 2 * count
        invariant
            0 <= j <= 2 * count,
            count <= 255,
            count == pair_at(input@, pos as int + 2),
            pos + 4 + 2 * count <= input@.len(),
            input@.len() <= usize::MAX,
            forall|k: int| pos + 4 <= k < pos + 4 + j ==> is_hex_digit_spec(#[trigger] input@[k]),
        decreases 2 * count - j,
    {
        if !is_hex_digit(input[pos + 4 + j]) {
            return None;
        }
        j = j + 1;
    }
    let mut addr: u64 = 0;
    let mut k: usize = 0;
    while k < ab
        invariant
            0 <= k <= ab,
            ab <= 4,
            pos + 4 + 2 * ab <= pos + 4 + 2 * count <= input@.len(),
            input@.len() <= usize::MAX,
            count >= ab + 1,
            addr == be_val(input@, pos as int + 4, k as int),
            addr < 0x1_0000_0000u64,
            k < 4 ==> addr < 0x100_0000u64,
            k < 3 ==> addr < 0x1_0000u64,
            k < 2 ==> addr < 0x100u64,
            k < 1 ==> addr == 0,
        decreases ab - k,
    {
        let p = read_pair(input, pos + 4 + 2 * k);
        addr = addr * 256 + (p as u64);
        k = k + 1;
    }
    let dlen = count - ab - 1;
    let dstart = pos + 4 + 2 * ab;
    let mut data: Vec<u8> = Vec::new();
    let mut d: usize = 0;
    while d < dlen
        invariant
            0 <= d <= dlen,
            count <= 255,
            ab <= 4,
            dlen == count - ab - 1,
            dstart == pos + 4 + 2 * ab,
            pos + 4 + 2 * count <= input@.len(),
            input@.len() <= usize::MAX,
            count >= ab + 1,
            data@.len() == d,
            forall|k2: int| 0 <= k2 < d ==> (#[trigger] data@[k2]) == pair_at(input@, dstart + 2 * k2),
        decreases dlen - d,
    {
        let b = read_pair(input, dstart + 2 * d);
        data.push(b);
        d = d + 1;
    }
    proof {
        assert(data@ =~= decoded(input@, dstart as int, dlen as int));
    }
    let after = pos + 4 + 2 * count;
    if after < n && input[after] == 13 {
        if after + 1 < n && input[after + 1] == 10 {
            Some((after + 2, addr, data))
        } else {
            Some((after + 1, addr, data))
        }
    } else if after < n && input[after] == 10 {
        Some((after + 1, addr, data))
    } else {
        None
    }
}

/// Parses a fixed-count record: the worker behind the S5 to S9 parsers.
fn parse_fixed(input: &[u8], pos: usize, tag: u8, cc: u8, ab: usize, nl_required: bool) -> (r:
    Option<(usize, u64)>)
    requires
        2 <= ab <= 4,
    ensures
        ({
            let sp = fixed_record_at(input@, pos as int, tag, cc, ab as int, nl_required);
            match r {
                None => sp is None,
                Some((np, v)) => sp == Some((np as int, v)),
            }
        }),
{
    let n = input.len();
    if n < 4 || pos > n - 4 {
        return None;
    }
    if input[pos] != 83 || input[pos + 1] != tag || input[pos + 2] != 48 || input[pos + 3] != cc {
        return None;
    }
    if n - (pos + 4) < 2 * (ab + 1) {
        return None;
    }
    let mut j: usize = 0;
    while j < 2 * (ab + 1)
        invariant
            0 <= j <= 2 * (ab + 1),
            ab <= 4,
            pos + 4 + 2 * (ab + 1) <= input@.len(),
            input@.len() <= usize::MAX,
            forall|k: int| pos + 4 <= k < pos + 4 + j ==> is_hex_digit_spec(#[trigger] input@[k]),
        decreases 2 * (ab + 1) - j,
    {
        if !is_hex_digit(input[pos + 4 + j]) {
            return None;
        }
        j = j + 1;
    }
    let mut v: u64 = 0;
    let mut k: usize = 0;
    while k < ab
        invariant
            0 <= k <= ab,
            ab <= 4,
            ab <= 4,
            pos + 4 + 2 * (ab + 1) <= input@.len(),
            input@.len() <= usize::MAX,
            v == be_val(input@, pos as int + 4, k as int),
            v < 0x1_0000_0000u64,
            k < 4 ==> v < 0x100_0000u64,
            k < 3 ==> v < 0x1_0000u64,
            k < 2 ==> v < 0x100u64,
            k < 1 ==> v == 0,
        decreases ab - k,
    {
        let p = read_pair(input, pos + 4 + 2 * k);
        v = v * 256 + (p as u64);
        k = k + 1;
    }
    let after = pos + 4 + 2 * (ab + 1);
    if !nl_required {
        return Some((after, v));
    }
    if after < n && input[after] == 13 {
        if after + 1 < n && input[after + 1] == 10 {
            Some((after + 2, v))
        } else {
            Some((after + 1, v))
        }
    } else if after < n && input[after] == 10 {
        Some((after + 1, v))
    } else {
        None
    }
}

/// Parses an S0 header record at `pos`.
pub fn parse_record0(input: &[u8], pos: usize) -> (r: Option<(usize, Record)>)
    ensures
        ({
            let sp = data_record_at(input@, pos as int, 48, 2);
            match r {
                None => sp is None,
                Some((np, rec)) => sp matches Some(t) && t.0 == np && (rec matches Record::Header(
                    h,
                ) && h@ == t.2),
            }
        }),
{
    match parse_data_like(input, pos, 48, 2) {
        None => None,
        Some((np, _, data)) => Some((np, Record::Header(data))),
    }
}

/// Parses an S1 data record (16-bit address) at `pos`.
pub fn parse_record1(input: &[u8], pos: usize) -> (r: Option<(usize, Record)>)
    ensures
        ({
            let sp = data_record_at(input@, pos as int, 49, 2);
            match r {
                None => sp is None,
                Some((np, rec)) => sp matches Some(t) && t.0 == np && (rec matches Record::Data(
                    a,
                    d,
                ) && a == t.1 && d@ == t.2),
            }
        }),
{
    match parse_data_like(input, pos, 49, 2) {
        None => None,
        Some((np, addr, data)) => Some((np, Record::Data(addr, data))),
    }
}

/// Parses an S2 data record (24-bit address) at `pos`.
pub fn parse_record2(input: &[u8], pos: usize) -> (r: Option<(usize, Record)>)
    ensures
        ({
            let sp = data_record_at(input@, pos as int, 50, 3);
            match r {
                None => sp is None,
                Some((np, rec)) => sp matches Some(t) && t.0 == np && (rec matches Record::Data(
                    a,
                    d,
                ) && a == t.1 && d@ == t.2),
            }
        }),
{
    match parse_data_like(input, pos, 50, 3) {
        None => None,
        Some((np, addr, data)) => Some((np, Record::Data(addr, data))),
    }
}

/// Parses an S3 data record (32-bit address) at `pos`.
pub fn parse_record3(input: &[u8], pos: usize) -> (r: Option<(usize, Record)>)
    ensures
        ({
            let sp = data_record_at(input@, pos as int, 51, 4);
            match r {
                None => sp is None,
                Some((np, rec)) => sp matches Some(t) && t.0 == np && (rec matches Record::Data(
                    a,
                    d,
                ) && a == t.1 && d@ == t.2),
            }
        }),
{
    match parse_data_like(input, pos, 51, 4) {
        None => None,
        Some((np, addr, data)) => Some((np, Record::Data(addr, data))),
    }
}

/// Parses an S5 record-count record at `pos`.
pub fn parse_record5(input: &[u8], pos: usize) -> (r: Option<(usize, Record)>)
    ensures
        ({
            let sp = fixed_record_at(input@, pos as int, 53, 51, 2, true);
            match r {
                None => sp is None,
                Some((np, rec)) => sp matches Some(t) && t.0 == np && (rec matches Record::Count(
                    c,
                ) && c == t.1),
            }
        }),
{
    match parse_fixed(input, pos, 53, 51, 2, true) {
        None => None,
        Some((np, v)) => Some((np, Record::Count(v))),
    }
}

/// Parses an S6 record-count record at `pos`.
pub fn parse_record6(input: &[u8], pos: usize) -> (r: Option<(usize, Record)>)
    ensures
        ({
            let sp = fixed_record_at(input@, pos as int, 54, 52, 3, true);
            match r {
                None => sp is None,
                Some((np, rec)) => sp matches Some(t) && t.0 == np && (rec matches Record::Count(
                    c,
                ) && c == t.1),
            }
        }),
{
    match parse_fixed(input, pos, 54, 52, 3, true) {
        None => None,
        Some((np, v)) => Some((np, Record::Count(v))),
    }
}

/// Parses an S7 end-of-file record (32-bit start address) at `pos`.
pub fn parse_record7(input: &[u8], pos: usize) -> (r: Option<(usize, Record)>)
    ensures
        ({
            let sp = fixed_record_at(input@, pos as int, 55, 53, 4, false);
            match r {
                None => sp is None,
                Some((np, rec)) => sp matches Some(t) && t.0 == np && (rec matches Record::Eof(a)
                    && a == t.1),
            }
        }),
{
    match parse_fixed(input, pos, 55, 53, 4, false) {
        None => None,
        Some((np, v)) => Some((np, Record::Eof(v))),
    }
}

/// Parses an S8 end-of-file record (24-bit start address) at `pos`.
pub fn parse_record8(input: &[u8], pos: usize) -> (r: Option<(usize, Record)>)
    ensures
        ({
            let sp = fixed_record_at(input@, pos as int, 56, 52, 3, false);
            match r {
                None => sp is None,
                Some((np, rec)) => sp matches Some(t) && t.0 == np && (rec matches Record::Eof(a)
                    && a == t.1),
            }
        }),
{
    match parse_fixed(input, pos, 56, 52, 3, false) {
        None => None,
        Some((np, v)) => Some((np, Record::Eof(v))),
    }
}

/// Parses an S9 end-of-file record (16-bit start address) at `pos`.
pub fn parse_record9(input: &[u8], pos: usize) -> (r: Option<(usize, Record)>)
    ensures
        ({
            let sp = fixed_record_at(input@, pos as int, 57, 51, 2, false);
            match r {
                None => sp is None,
                Some((np, rec)) => sp matches Some(t) && t.0 == np && (rec matches Record::Eof(a)
                    && a == t.1),
            }
        }),
{
    match parse_fixed(input, pos, 57, 51, 2, false) {
        None => None,
        Some((np, v)) => Some((np, Record::Eof(v))),
    }
}

/// Parses whichever record stands at `pos`.
pub fn parse_record(input: &[u8], pos: usize) -> (r: Option<(usize, Record)>)
    ensures
        ({
            let sp = record_at(input@, pos as int);
            match r {
                None => sp is None,
                Some((np, rec)) => sp == Some((np as int, rec_model(rec))),
            }
        }),
{
    if let Some(r) = parse_record0(input, pos) {
        return Some(r);
    }
    if let Some(r) = parse_record1(input, pos) {
        return Some(r);
    }
    if let Some(r) = parse_record2(input, pos) {
        return Some(r);
    }
    if let Some(r) = parse_record3(input, pos) {
        return Some(r);
    }
    if let Some(r) = parse_record5(input, pos) {
        return Some(r);
    }
    if let Some(r) = parse_record6(input, pos) {
        return Some(r);
    }
    if let Some(r) = parse_record7(input, pos) {
        return Some(r);
    }
    if let Some(r) = parse_record8(input, pos) {
        return Some(r);
    }
    if let Some(r) = parse_record9(input, pos) {
        return Some(r);
    }
    None
}

/// The digit character for one decimal digit value.
pub open spec fn digit_char(d: int) -> char {
    if d == 0 {
        '0'
    } else if d == 1 {
        '1'
    } else if d == 2 {
        '2'
    } else if d == 3 {
        '3'
    } else if d == 4 {
        '4'
    } else if d == 5 {
        '5'
    } else if d == 6 {
        '6'
    } else if d == 7 {
        '7'
    } else if d == 8 {
        '8'
    } else {
        '9'
    }
}

/// The decimal representation of a non-negative number.
pub open spec fn dec_chars(n: int) -> Seq<char>
    decreases n,
{
    if n < 0 {
        Seq::empty()
    } else if n < 10 {
        seq![digit_char(n)]
    } else {
        dec_chars(n / 10).push(digit_char(n % 10))
    }
}

/// Appends the decimal representation of `n`.
fn push_dec(out: &mut String, n: u64)
    ensures
        final(out)@ == old(out)@ + dec_chars(n as int),
    decreases n,
{
    proof {
        reveal_strlit("0");
        reveal_strlit("1");
        reveal_strlit("2");
        reveal_strlit("3");
        reveal_strlit("4");
        reveal_strlit("5");
        reveal_strlit("6");
        reveal_strlit("7");
        reveal_strlit("8");
        reveal_strlit("9");
    }
    if n >= 10 {
        push_dec(out, n / 10);
    }
    let ghost mid = out@;
    let d = n % 10;
    if d == 0 {
        out.append("0");
    } else if d == 1 {
        out.append("1");
    } else if d == 2 {
        out.append("2");
    } else if d == 3 {
        out.append("3");
    } else if d == 4 {
        out.append("4");
    } else if d == 5 {
        out.append("5");
    } else if d == 6 {
        out.append("6");
    } else if d == 7 {
        out.append("7");
    } else if d == 8 {
        out.append("8");
    } else {
        out.append("9");
    }
    proof {
        assert(out@ =~= mid + seq![digit_char(n as int % 10)]);
        if n < 10 {
            assert(out@ =~= old(out)@ + dec_chars(n as int));
        } else {
            assert(out@ =~= old(out)@ + dec_chars(n as int));
        }
    }
}

/// The message reported for a malformed line.
pub open spec fn invalid_line_msg(line: int) -> Seq<char> {
    "Invalid S-record at line: "@ + dec_chars(line)
}

/// The sparse memory seen as a partial map from address to byte.
pub open spec fn mem_of(s: Seq<(u64, u8)>) -> Map<u64, u8> {
    Map::new(|k: u64| spec_get(s, k) is Some, |k: u64| spec_get(s, k)->Some_0)
}

/// `k` is the lowest populated address of the memory.
pub open spec fn is_min_key(m: Map<u64, u8>, k: u64) -> bool {
    m.dom().contains(k) && forall|x: u64| m.dom().contains(x) ==> k <= x
}

/// `k` is the highest populated address of the memory.
pub open spec fn is_max_key(m: Map<u64, u8>, k: u64) -> bool {
    m.dom().contains(k) && forall|x: u64| m.dom().contains(x) ==> x <= k
}

/// A present key stands at some position of the pair list.
proof fn lemma_spec_get_index(m: Seq<(u64, u8)>, a: u64)
    requires
        spec_get(m, a) is Some,
    ensures
        exists|i: int| 0 <= i < m.len() && (#[trigger] m[i]).0 == a,
    decreases m.len(),
{
    if m.len() == 0 {
    } else if m[0].0 == a {
        assert(m[0].0 == a);
    } else {
        lemma_spec_get_index(m.skip(1), a);
        let i = choose|i: int| 0 <= i < m.skip(1).len() && (#[trigger] m.skip(1)[i]).0 == a;
        assert(m[i + 1].0 == a);
    }
}

/// The first and last entries of a sorted sparse store are the lowest
/// and highest populated addresses of its memory.
pub proof fn lemma_sparse_bounds(b: SparseBytes)
    requires
        b.wf(),
        b.model().len() > 0,
    ensures
        is_min_key(mem_of(b.model()), b.model()[0].0),
        is_max_key(mem_of(b.model()), b.model()[b.model().len() - 1].0),
    decreases b.model().len(),
{
    let m = b.model();
    lemma_spec_get_found_at(m, 0);
    lemma_spec_get_found_at(m, m.len() - 1);
    assert forall|x: u64| mem_of(m).dom().contains(x) implies m[0].0 <= x && x <= m[m.len()
        - 1].0 by {
        lemma_spec_get_index(m, x);
        let i = choose|i: int| 0 <= i < m.len() && (#[trigger] m[i]).0 == x;
        if i > 0 {
            assert(m[0].0 < m[i].0);
        }
        if i < m.len() - 1 {
            assert(m[i].0 < m[m.len() - 1].0);
        }
    }
}

/// The key at any position of a sorted pair list is found by lookup.
proof fn lemma_spec_get_found_at(m: Seq<(u64, u8)>, i: int)
    requires
        0 <= i < m.len(),
        forall|a: int, b2: int| 0 <= a < b2 < m.len() ==> (#[trigger] m[a]).0 < (#[trigger] m[b2]).0,
    ensures
        spec_get(m, m[i].0) is Some,
{
    assert forall|j: int| 0 <= j < i implies (#[trigger] m[j]).0 != m[i].0 by {
        assert(m[j].0 < m[i].0);
    }
    lemma_spec_get_found(m, m[i].0, i);
}

/// The memory once a data record's bytes from index `j` on are written
/// over it.
pub open spec fn apply_data(m: Map<u64, u8>, base: u64, data: Seq<u8>, j: int) -> Map<u64, u8>
    decreases data.len() - j,
{
    if j < 0 || j >= data.len() {
        m
    } else {
        apply_data(m.insert((base + j) as u64, data[j]), base, data, j + 1)
    }
}

/// What parsing from `pos` on yields, starting from the given memory
/// and header, with the current line number: data records fill the
/// memory, the last header record wins, count records are skipped, an
/// end-of-file record stops with the start address, and a malformed
/// line reports its number.
pub open spec fn parse_spec(
    s: Seq<u8>,
    pos: int,
    mem: Map<u64, u8>,
    hdr: Seq<u8>,
    line: int,
    fuel: nat,
) -> Result<(Map<u64, u8>, Seq<u8>, u64), int>
    decreases fuel,
{
    if fuel == 0 {
        Err(line)
    } else {
        match record_at(s, pos) {
            None => Err(line),
            Some((np, rec)) => match rec {
                RecordSpec::Eof(start) => Ok((mem, hdr, start)),
                RecordSpec::Data(base, data) => parse_spec(
                    s,
                    np,
                    apply_data(mem, base, data, 0),
                    hdr,
                    line + 1,
                    (fuel - 1) as nat,
                ),
                RecordSpec::Header(h) => parse_spec(s, np, mem, h, line + 1, (fuel - 1) as nat),
                RecordSpec::Count(_) => parse_spec(s, np, mem, hdr, line + 1, (fuel - 1) as nat),
            },
        }
    }
}

/// A matched record spans at least ten characters and ends within the
/// input.
proof fn lemma_record_at_bounds(s: Seq<u8>, pos: int)
    requires
        record_at(s, pos) is Some,
    ensures
        pos + 10 <= record_at(s, pos)->Some_0.0 <= s.len(),
{
}

/// A data record's base address fits in 32 bits.
proof fn lemma_be_val_bound(s: Seq<u8>, i: int, ab: int)
    requires
        0 <= ab <= 4,
    ensures
        be_val(s, i, ab) < 0x1_0000_0000,
    decreases ab,
{
    if ab > 0 {
        lemma_be_val_bound(s, i, ab - 1);
        assert(be_val(s, i, ab - 1) < if ab == 4 {
            0x100_0000int
        } else if ab == 3 {
            0x1_0000int
        } else if ab == 2 {
            0x100int
        } else {
            1int
        }) by {
            lemma_be_val_small(s, i, ab - 1);
        }
    }
}

/// The big-endian value of `ab` pairs is below `2^(8 ab)`.
proof fn lemma_be_val_small(s: Seq<u8>, i: int, ab: int)
    requires
        0 <= ab <= 4,
    ensures
        ab == 0 ==> be_val(s, i, ab) == 0,
        ab == 1 ==> be_val(s, i, ab) < 0x100,
        ab == 2 ==> be_val(s, i, ab) < 0x1_0000,
        ab == 3 ==> be_val(s, i, ab) < 0x100_0000,
        ab == 4 ==> be_val(s, i, ab) < 0x1_0000_0000,
    decreases ab,
{
    if ab > 0 {
        lemma_be_val_small(s, i, ab - 1);
    }
}

/// The in-memory state of one S-record source: the sparse byte map, the
/// URI it was opened from, its permission set, the preserved header and
/// the start address of its end-of-file record.
pub struct SrecInternal {
    pub bytes: SparseBytes,
    pub uri: String,
    pub prot: IoMode,
    pub start_address: Option<u64>,
    pub header: Vec<u8>,
}

impl SrecInternal {
    /// A fresh, empty source.
    pub fn new(uri: String, prot: IoMode) -> (r: SrecInternal)
        ensures
            r.bytes.wf(),
            r.bytes.model() == Seq::<(u64, u8)>::empty(),
            r.uri == uri,
            r.prot == prot,
            r.start_address is None,
            r.header@ == Seq::<u8>::empty(),
    {
        SrecInternal {
            bytes: SparseBytes::new(),
            uri,
            prot,
            start_address: None,
            header: Vec::new(),
        }
    }

    /// Parses a whole S-record text into the sparse byte map, stopping
    /// at the end-of-file record; a malformed line fails with its
    /// number in the message and leaves the state parsed so far.
    pub fn parse_srec(&mut self, input: &[u8]) -> (r: Result<(), IoError>)
        requires
            old(self).bytes.wf(),
        ensures
            final(self).bytes.wf(),
            final(self).uri == old(self).uri,
            final(self).prot == old(self).prot,
            ({
                let sp = parse_spec(
                    input@,
                    0,
                    mem_of(old(self).bytes.model()),
                    old(self).header@,
                    1,
                    (input@.len() + 1) as nat,
                );
                match r {
                    Ok(u) => sp matches Ok(t) && mem_of(final(self).bytes.model()) == t.0
                        && final(self).header@ == t.1 && final(self).start_address == Some(t.2),
                    Err(e) => sp matches Err(line) && (e matches IoError::Custom(msg) && msg@
                        == invalid_line_msg(line)),
                }
            }),
    {
        let ghost fuel0: nat = (input@.len() + 1) as nat;
        let ghost sp0 = parse_spec(
            input@,
            0,
            mem_of(self.bytes.model()),
            self.header@,
            1,
            fuel0,
        );
        let n = input.len();
        let mut pos: usize = 0;
        let mut line: u64 = 1;
        loop
            invariant
                self.bytes.wf(),
                self.uri == old(self).uri,
                self.prot == old(self).prot,
                fuel0 == (input@.len() + 1) as nat,
                sp0 == parse_spec(
                    input@,
                    0,
                    mem_of(old(self).bytes.model()),
                    old(self).header@,
                    1,
                    fuel0,
                ),
                n == input@.len(),
                n <= usize::MAX,
                0 <= pos <= n,
                1 <= line,
                10 * (line - 1) <= pos,
                parse_spec(
                    input@,
                    pos as int,
                    mem_of(self.bytes.model()),
                    self.header@,
                    line as int,
                    (fuel0 - (line - 1)) as nat,
                ) == sp0,
            decreases n - pos + 1,
        {
            proof {
                assert(line - 1 <= n);
                assert(fuel0 - (line - 1) >= 1);
            }
            match parse_record(input, pos) {
                None => {
                    let mut msg = String::new();
                    msg.append("Invalid S-record at line: ");
                    push_dec(&mut msg, line);
                    proof {
                        assert(msg@ =~= invalid_line_msg(line as int));
                    }
                    return Err(IoError::Custom(msg));
                },
                Some((np, rec)) => {
                    proof {
                        lemma_record_at_bounds(input@, pos as int);
                    }
                    match rec {
                        Record::Eof(start) => {
                            self.start_address = Some(start);
                            return Ok(());
                        },
                        Record::Data(base, data) => {
                            proof {
                                assert(record_at(input@, pos as int) == Some(
                                    (np as int, RecordSpec::Data(base, data@)),
                                ));
                                if data_record_at(input@, pos as int, 49, 2) is Some {
                                    lemma_be_val_bound(input@, pos as int + 4, 2);
                                } else if data_record_at(input@, pos as int, 50, 3) is Some {
                                    lemma_be_val_bound(input@, pos as int + 4, 3);
                                } else {
                                    assert(data_record_at(input@, pos as int, 51, 4) is Some);
                                    lemma_be_val_bound(input@, pos as int + 4, 4);
                                }
                                assert(base < 0x1_0000_0000u64);
                            }
                            let ghost mem0 = mem_of(self.bytes.model());
                            let ghost hdr_snap = self.header;
                            let mut i: usize = 0;
                            while i < data.len()
                                invariant
                                    self.bytes.wf(),
                                    self.uri == old(self).uri,
                                    self.prot == old(self).prot,
                                    self.header == hdr_snap,
                                    0 <= i <= data@.len(),
                                    data@.len() <= 255,
                                    base < 0x1_0000_0000u64,
                                    apply_data(mem_of(self.bytes.model()), base, data@, i as int)
                                        == apply_data(mem0, base, data@, 0),
                                decreases data.len() - i,
                            {
                                let ghost before = mem_of(self.bytes.model());
                                self.bytes.set(base + (i as u64), data[i]);
                                proof {
                                    assert(mem_of(self.bytes.model()) =~= before.insert(
                                        (base + i as u64) as u64,
                                        data@[i as int],
                                    ));
                                }
                                i = i + 1;
                            }
                        },
                        Record::Header(h) => {
                            self.header = h;
                        },
                        Record::Count(_) => {},
                    }
                    pos = np;
                    line = line + 1;
                },
            }
        }
    }

    /// The natural base address: the lowest populated address, zero for
    /// an empty map.
    pub fn base(&self) -> (r: u64)
        ensures
            self.bytes.model().len() == 0 ==> r == 0,
            self.bytes.model().len() > 0 ==> r == self.bytes.model()[0].0,
    {
        match self.bytes.first() {
            Some((k, _)) => k,
            None => 0,
        }
    }

    /// The extent of the populated addresses: highest minus lowest plus
    /// one, zero for an empty map.
    pub fn size(&self) -> (r: u64)
        requires
            self.bytes.wf(),
            self.bytes.model().len() > 0 ==> self.bytes.model()[self.bytes.model().len() - 1].0
                - self.bytes.model()[0].0 < u64::MAX,
        ensures
            self.bytes.model().len() == 0 ==> r == 0,
            self.bytes.model().len() > 0 ==> r == self.bytes.model()[self.bytes.model().len()
                - 1].0 - self.bytes.model()[0].0 + 1,
    {
        let lo = match self.bytes.first() {
            Some((k, _)) => k,
            None => {
                return 0;
            },
        };
        let hi = match self.bytes.last() {
            Some((k, _)) => k,
            None => {
                return 0;
            },
        };
        proof {
            if self.bytes.model().len() > 1 {
                assert(self.bytes.model()[0].0 < self.bytes.model()[self.bytes.model().len()
                    - 1].0);
            }
        }
        hi - lo + 1
    }

    /// Reads bytes at the plugin-native address `raddr`, filling
    /// unpopulated addresses with zero.
    pub fn read(&self, raddr: u64, buf: &mut Vec<u8>) -> (r: Result<(), IoError>)
        requires
            self.bytes.wf(),
            raddr + old(buf)@.len() <= u64::MAX + 1,
        ensures
            r is Ok,
            final(buf)@.len() == old(buf)@.len(),
            forall|i: int|
                0 <= i < final(buf)@.len() ==> (#[trigger] final(buf)@[i]) == self.bytes.byte_at(
                    (raddr + i) as u64,
                ),
    {
        let len = buf.len();
        let mut i: usize = 0;
        while i < len
            invariant
                self.bytes.wf(),
                0 <= i <= len,
                buf@.len() == len,
                raddr + len <= u64::MAX + 1,
                forall|j: int|
                    0 <= j < i ==> (#[trigger] buf@[j]) == self.bytes.byte_at((raddr + j) as u64),
            decreases len - i,
        {
            let b = match self.bytes.get(raddr + (i as u64)) {
                Some(v) => v,
                None => 0,
            };
            buf[i] = b;
            i = i + 1;
        }
        Ok(())
    }

    /// Writes bytes at the plugin-native address `raddr` into the
    /// sparse map. Fails with `PermissionDenied`, changing nothing,
    /// exactly when the source was opened with neither write nor
    /// copy-on-write permission.
    pub fn write(&mut self, raddr: u64, buf: &[u8]) -> (r: Result<(), IoError>)
        requires
            old(self).bytes.wf(),
            raddr + buf@.len() <= u64::MAX + 1,
        ensures
            final(self).bytes.wf(),
            final(self).uri == old(self).uri,
            final(self).prot == old(self).prot,
            final(self).header == old(self).header,
            final(self).start_address == old(self).start_address,
            r is Err <==> !old(self).prot.writeable(),
            r is Err ==> *final(self) == *old(self) && r == Err::<(), IoError>(
                IoError::PermissionDenied,
            ),
            r is Ok ==> forall|x: u64|
                #![all_triggers]
                spec_get(final(self).bytes.model(), x) == if raddr <= x < raddr + buf@.len() {
                    Some(buf@[x - raddr])
                } else {
                    spec_get(old(self).bytes.model(), x)
                },
    {
        if !self.prot.cow && !self.prot.write {
            return Err(IoError::PermissionDenied);
        }
        let len = buf.len();
        let mut i: usize = 0;
        while i < len
            invariant
                self.bytes.wf(),
                self.uri == old(self).uri,
                self.prot == old(self).prot,
                self.header == old(self).header,
                self.start_address == old(self).start_address,
                0 <= i <= len,
                buf@.len() == len,
                raddr + len <= u64::MAX + 1,
                forall|x: u64|
                    #![all_triggers]
                    spec_get(self.bytes.model(), x) == if raddr <= x < raddr + i {
                        Some(buf@[x - raddr])
                    } else {
                        spec_get(old(self).bytes.model(), x)
                    },
            decreases len - i,
        {
            self.bytes.set(raddr + (i as u64), buf[i]);
            i = i + 1;
        }
        Ok(())
    }
}

/// The lowercase hexadecimal digit for one nibble value.
pub open spec fn hexd(v: int) -> u8 {
    if v < 10 {
        (48 + v) as u8
    } else {
        (87 + v) as u8
    }
}

/// The two lowercase hexadecimal digits of one byte.
pub open spec fn hex_pair(b: u8) -> Seq<u8> {
    seq![hexd(b as int / 16), hexd(b as int % 16)]
}

/// The hexadecimal text of the bytes from index `i` on.
pub open spec fn hex_bytes(bs: Seq<u8>, i: int) -> Seq<u8>
    decreases bs.len() - i,
{
    if i < 0 || i >= bs.len() {
        Seq::empty()
    } else {
        hex_pair(bs[i]) + hex_bytes(bs, i + 1)
    }
}

/// Sum of the bytes from index `i` on.
pub open spec fn sum_bytes(bs: Seq<u8>, i: int) -> int
    decreases bs.len() - i,
{
    if i < 0 || i >= bs.len() {
        0
    } else {
        bs[i] + sum_bytes(bs, i + 1)
    }
}

/// The `ab` big-endian bytes of a value.
pub open spec fn be_bytes(v: int, ab: int) -> Seq<u8>
    decreases ab,
{
    if ab <= 0 {
        Seq::empty()
    } else {
        be_bytes(v / 256, ab - 1).push((v % 256) as u8)
    }
}

/// The record checksum: one's complement of the low byte of the sum of
/// the count byte and all address and data bytes.
pub open spec fn cksum(count: int, rest: int) -> u8 {
    (255 - ((count + rest) % 256)) as u8
}

/// One rendered data record line: the kind is chosen by the highest
/// address the run reaches.
pub open spec fn data_line(addr: u64, data: Seq<u8>) -> Seq<u8> {
    let top = addr + data.len() - 1;
    let tag: u8 = if top > 0xFF_FFFF {
        51
    } else if top > 0xFFFF {
        50
    } else {
        49
    };
    let ab: int = if top > 0xFF_FFFF {
        4
    } else if top > 0xFFFF {
        3
    } else {
        2
    };
    let count = ab + data.len() + 1;
    let abytes = be_bytes(addr as int, ab);
    seq![83u8, tag] + hex_pair(count as u8) + hex_bytes(abytes, 0) + hex_bytes(data, 0) + hex_pair(
        cksum(count, sum_bytes(abytes, 0) + sum_bytes(data, 0)),
    ) + seq![10u8]
}

/// The rendered header record line.
pub open spec fn header_line(header: Seq<u8>) -> Seq<u8> {
    let cb = ((header.len() + 3) % 256) as u8;
    seq![83u8, 48u8] + hex_pair(cb) + seq![48u8, 48u8, 48u8, 48u8] + hex_bytes(header, 0)
        + hex_pair(cksum(cb as int, sum_bytes(header, 0))) + seq![10u8]
}

/// The rendered end-of-file record line: the kind is chosen by the
/// magnitude of the start address.
pub open spec fn eof_line(start: u64) -> Seq<u8> {
    let tag: u8 = if start > 0xFF_FFFF {
        55
    } else if start > 0xFFFF {
        56
    } else {
        57
    };
    let ab: int = if start > 0xFF_FFFF {
        4
    } else if start > 0xFFFF {
        3
    } else {
        2
    };
    let count = ab + 1;
    let abytes = be_bytes(start as int, ab);
    seq![83u8, tag] + hex_pair(count as u8) + hex_bytes(abytes, 0) + hex_pair(
        cksum(count, sum_bytes(abytes, 0)),
    ) + seq![10u8]
}

/// Where the run of contiguous addresses that started at `start` ends,
/// scanning from `k`: runs break at sixteen bytes or at the first gap.
pub open spec fn run_end(entries: Seq<(u64, u8)>, start: int, k: int) -> int
    decreases entries.len() - k,
{
    if start < k < entries.len() && k - start < 16 && entries[k].0 == entries[k - 1].0 + 1 {
        run_end(entries, start, k + 1)
    } else {
        k
    }
}

/// The bytes of the entries in `[i, j)`.
pub open spec fn run_values(entries: Seq<(u64, u8)>, i: int, j: int) -> Seq<u8> {
    Seq::new((j - i) as nat, |k: int| entries[i + k].1)
}

/// All data record lines for the entries from index `i` on, one line
/// per run.
pub open spec fn render_data(entries: Seq<(u64, u8)>, i: int, fuel: nat) -> Seq<u8>
    decreases fuel,
{
    if fuel == 0 || i < 0 || i >= entries.len() {
        Seq::empty()
    } else {
        let j = run_end(entries, i, i + 1);
        data_line(entries[i].0, run_values(entries, i, j)) + render_data(
            entries,
            j,
            (fuel - 1) as nat,
        )
    }
}

/// The rendered end-of-file part: empty when no start address was ever
/// parsed.
pub open spec fn eof_part(start: Option<u64>) -> Seq<u8> {
    match start {
        None => Seq::empty(),
        Some(s) => eof_line(s),
    }
}

/// More fuel than remaining entries renders the same text.
proof fn lemma_render_fuel(entries: Seq<(u64, u8)>, i: int, f1: nat, f2: nat)
    requires
        f1 >= entries.len() - i,
        f2 >= entries.len() - i,
    ensures
        render_data(entries, i, f1) == render_data(entries, i, f2),
    decreases f1 + f2,
{
    if i < 0 || i >= entries.len() || f1 == 0 || f2 == 0 {
    } else {
        let j = run_end(entries, i, i + 1);
        lemma_run_end_bounds(entries, i, i + 1);
        lemma_render_fuel(entries, j, (f1 - 1) as nat, (f2 - 1) as nat);
    }
}

/// A run reaches past its first entry and at most to the end.
proof fn lemma_run_end_bounds(entries: Seq<(u64, u8)>, start: int, k: int)
    requires
        start < k <= entries.len(),
    ensures
        k <= run_end(entries, start, k) <= entries.len(),
    decreases entries.len() - k,
{
    if start < k < entries.len() && k - start < 16 && entries[k].0 == entries[k - 1].0 + 1 {
        lemma_run_end_bounds(entries, start, k + 1);
    }
}

/// Law: one byte's rendered hexadecimal pair is two hexadecimal digits
/// that decode back to the byte. This is the digit level of the
/// parse-then-serialize round trip.
pub proof fn lemma_hex_pair_round_trip(b: u8)
    ensures
        hex_pair(b).len() == 2,
        is_hex_digit_spec(hex_pair(b)[0]),
        is_hex_digit_spec(hex_pair(b)[1]),
        pair_at(hex_pair(b), 0) == b,
{
}

/// Law: a rendered run of data bytes decodes back to the same bytes:
/// the data level of the parse-then-serialize round trip.
pub proof fn lemma_hex_bytes_round_trip(data: Seq<u8>, i: int)
    requires
        0 <= i <= data.len(),
    ensures
        hex_bytes(data, i).len() == 2 * (data.len() - i),
        hexpairs_ok(hex_bytes(data, i), 0, data.len() - i),
        decoded(hex_bytes(data, i), 0, data.len() - i) =~= data.skip(i),
    decreases data.len() - i,
{
    let h = hex_bytes(data, i);
    if i == data.len() {
        assert(decoded(h, 0, 0) =~= data.skip(i));
    } else {
        lemma_hex_bytes_round_trip(data, i + 1);
        let rest = hex_bytes(data, i + 1);
        lemma_hex_pair_round_trip(data[i]);
        assert(h =~= hex_pair(data[i]) + rest);
        assert forall|j: int| 0 <= j < h.len() implies is_hex_digit_spec(#[trigger] h[j]) by {
            if j >= 2 {
                assert(h[j] == rest[j - 2]);
            }
        }
        assert forall|k: int|
            0 <= k < data.len() - i implies decoded(h, 0, data.len() - i)[k] == data.skip(i)[k] by {
            if k == 0 {
                assert(pair_at(h, 0) == pair_at(hex_pair(data[i]), 0));
            } else {
                assert(h[2 * k] == rest[2 * (k - 1)]);
                assert(h[2 * k + 1] == rest[2 * (k - 1) + 1]);
                assert(pair_at(h, 2 * k) == pair_at(rest, 2 * (k - 1)));
                assert(decoded(rest, 0, data.len() - i - 1)[k - 1] == data.skip(i + 1)[k - 1]);
            }
        }
        assert(decoded(h, 0, data.len() - i) =~= data.skip(i));
    }
}

/// Appends the two lowercase hexadecimal digits of one byte.
fn push_hex_pair(out: &mut Vec<u8>, b: u8)
    ensures
        final(out)@ == old(out)@ + hex_pair(b),
{
    let hi = b / 16;
    let lo = b % 16;
    let c1: u8 = if hi < 10 {
        48 + hi
    } else {
        87 + hi
    };
    let c2: u8 = if lo < 10 {
        48 + lo
    } else {
        87 + lo
    };
    out.push(c1);
    out.push(c2);
    proof {
        assert(final(out)@ =~= old(out)@ + hex_pair(b));
    }
}

/// Appends the hexadecimal text of a byte slice, returning the sum of
/// its bytes.
fn push_hex_bytes(out: &mut Vec<u8>, bs: &Vec<u8>) -> (s: u32)
    requires
        bs@.len() <= 0x100,
    ensures
        final(out)@ == old(out)@ + hex_bytes(bs@, 0),
        s == sum_bytes(bs@, 0),
        s <= 255 * bs@.len(),
{
    let mut i: usize = 0;
    let mut sum: u32 = 0;
    while i < bs.len()
        invariant
            0 <= i <= bs@.len(),
            bs@.len() <= 0x100,
            sum <= 255 * i,
            out@ + hex_bytes(bs@, i as int) == old(out)@ + hex_bytes(bs@, 0),
            sum + sum_bytes(bs@, i as int) == sum_bytes(bs@, 0),
        decreases bs.len() - i,
    {
        let ghost before = out@;
        push_hex_pair(out, bs[i]);
        proof {
            assert(before + hex_bytes(bs@, i as int) =~= (before + hex_pair(bs@[i as int]))
                + hex_bytes(bs@, i as int + 1));
        }
        sum = sum + (bs[i] as u32);
        i = i + 1;
    }
    proof {
        assert(out@ + hex_bytes(bs@, bs@.len() as int) =~= out@);
    }
    sum
}

/// Appends the `ab` big-endian bytes of a value.
fn push_be_bytes(out: &mut Vec<u8>, v: u64, ab: usize)
    requires
        2 <= ab <= 4,
        (v as int) < 0x1_0000_0000,
    ensures
        final(out)@ == old(out)@ + be_bytes(v as int, ab as int),
        final(out)@.len() == old(out)@.len() + ab,
{
    proof {
        let w = v as int;
        assert(be_bytes(w / 256 / 256 / 256 / 256, 0) =~= Seq::<u8>::empty());
        assert(be_bytes(w / 256 / 256 / 256, 1) =~= be_bytes(w / 256 / 256 / 256 / 256, 0).push(
            ((w / 256 / 256 / 256) % 256) as u8,
        ));
        assert(be_bytes(w / 256 / 256, 2) =~= be_bytes(w / 256 / 256 / 256, 1).push(
            ((w / 256 / 256) % 256) as u8,
        ));
        assert(be_bytes(w / 256, 3) =~= be_bytes(w / 256 / 256, 2).push(((w / 256) % 256) as u8));
        assert(be_bytes(w, 4) =~= be_bytes(w / 256, 3).push((w % 256) as u8));
        assert(be_bytes(w / 256 / 256, 0) =~= Seq::<u8>::empty());
        assert(be_bytes(w / 256, 1) =~= be_bytes(w / 256 / 256, 0).push(((w / 256) % 256) as u8));
        assert(be_bytes(w, 2) =~= be_bytes(w / 256, 1).push((w % 256) as u8));
        assert(be_bytes(w / 256 / 256 / 256, 0) =~= Seq::<u8>::empty());
        assert(be_bytes(w, 3) =~= be_bytes(w / 256, 2).push((w % 256) as u8));
        assert(be_bytes(w / 256, 2) =~= be_bytes(w / 256 / 256, 1).push(((w / 256) % 256) as u8));
        assert(be_bytes(w / 256 / 256, 1) =~= be_bytes(w / 256 / 256 / 256, 0).push(
            ((w / 256 / 256) % 256) as u8,
        ));
    }
    if ab == 2 {
        out.push(((v / 256) % 256) as u8);
        out.push((v % 256) as u8);
        proof {
            assert(out@ =~= old(out)@ + be_bytes(v as int, 2));
        }
    } else if ab == 3 {
        out.push(((v / 256 / 256) % 256) as u8);
        out.push(((v / 256) % 256) as u8);
        out.push((v % 256) as u8);
        proof {
            assert(out@ =~= old(out)@ + be_bytes(v as int, 3));
        }
    } else {
        out.push(((v / 256 / 256 / 256) % 256) as u8);
        out.push(((v / 256 / 256) % 256) as u8);
        out.push(((v / 256) % 256) as u8);
        out.push((v % 256) as u8);
        proof {
            assert(out@ =~= old(out)@ + be_bytes(v as int, 4));
        }
    }
}

/// Appends one rendered data record line.
fn emit_data_line(out: &mut Vec<u8>, addr: u64, data: &Vec<u8>)
    requires
        1 <= data@.len() <= 16,
        addr + data@.len() - 1 < 0x1_0000_0000,
    ensures
        final(out)@ == old(out)@ + data_line(addr, data@),
{
    let top = addr + ((data.len() - 1) as u64);
    let tag: u8 = if top > 0xFF_FFFF {
        51
    } else if top > 0xFFFF {
        50
    } else {
        49
    };
    let ab: usize = if top > 0xFF_FFFF {
        4
    } else if top > 0xFFFF {
        3
    } else {
        2
    };
    let count = (ab + data.len() + 1) as u8;
    out.push(83);
    out.push(tag);
    push_hex_pair(out, count);
    let mut abv: Vec<u8> = Vec::new();
    push_be_bytes(&mut abv, addr, ab);
    let asum = push_hex_bytes(out, &abv);
    let dsum = push_hex_bytes(out, data);
    let total: u32 = (count as u32) + asum + dsum;
    let ck = (255 - (total % 256)) as u8;
    push_hex_pair(out, ck);
    out.push(10);
    proof {
        assert(ck == cksum(count as int, sum_bytes(abv@, 0) + sum_bytes(data@, 0)));
        assert(out@ =~= old(out)@ + data_line(addr, data@));
    }
}

/// Appends the rendered header record line.
fn emit_header_line(out: &mut Vec<u8>, header: &Vec<u8>)
    requires
        header@.len() <= 0xff,
    ensures
        final(out)@ == old(out)@ + header_line(header@),
{
    let cb = ((header.len() + 3) % 256) as u8;
    out.push(83);
    out.push(48);
    push_hex_pair(out, cb);
    out.push(48);
    out.push(48);
    out.push(48);
    out.push(48);
    let hsum = push_hex_bytes(out, header);
    let total: u32 = (cb as u32) + hsum;
    let ck = (255 - (total % 256)) as u8;
    push_hex_pair(out, ck);
    out.push(10);
    proof {
        assert(cb == ((header@.len() + 3) % 256) as u8);
        assert(ck == cksum(cb as int, sum_bytes(header@, 0)));
        assert(out@ =~= old(out)@ + header_line(header@));
    }
}

/// Appends the rendered end-of-file record line.
fn emit_eof_line(out: &mut Vec<u8>, start: u64)
    requires
        start < 0x1_0000_0000,
    ensures
        final(out)@ == old(out)@ + eof_line(start),
{
    let tag: u8 = if start > 0xFF_FFFF {
        55
    } else if start > 0xFFFF {
        56
    } else {
        57
    };
    let ab: usize = if start > 0xFF_FFFF {
        4
    } else if start > 0xFFFF {
        3
    } else {
        2
    };
    let count = (ab + 1) as u8;
    out.push(83);
    out.push(tag);
    push_hex_pair(out, count);
    let mut abv: Vec<u8> = Vec::new();
    push_be_bytes(&mut abv, start, ab);
    let asum = push_hex_bytes(out, &abv);
    let total: u32 = (count as u32) + asum;
    let ck = (255 - (total % 256)) as u8;
    push_hex_pair(out, ck);
    out.push(10);
    proof {
        assert(ck == cksum(count as int, sum_bytes(abv@, 0)));
        assert(out@ =~= old(out)@ + eof_line(start));
    }
}

impl SrecInternal {
    /// Regenerates the whole file text: the header record, one data
    /// record per run of up to sixteen contiguous bytes, and the
    /// end-of-file record when a start address is known. Fails, writing
    /// nothing, exactly when the header cannot fit one record.
    #[verifier::rlimit(100)]
    pub fn serialize_srec(&self) -> (r: Result<Vec<u8>, IoError>)
        requires
            self.bytes.wf(),
            self.bytes.model().len() > 0 ==> self.bytes.model()[self.bytes.model().len() - 1].0
                < 0x1_0000_0000,
            self.start_address matches Some(s) ==> s < 0x1_0000_0000,
        ensures
            r is Err <==> self.header@.len() > 0xfc,
            r is Err ==> (r matches Err(e) && (e matches IoError::Custom(m) && m@
                == "Cannot write S0 Entry with size > 0xff"@)),
            r matches Ok(v) ==> v@ == header_line(self.header@) + render_data(
                self.bytes.model(),
                0,
                (self.bytes.model().len() + 1) as nat,
            ) + eof_part(self.start_address),
    {
        if self.header.len() > 0xfc {
            let msg: &str = "Cannot write S0 Entry with size > 0xff";
            return Err(IoError::Custom(msg.to_owned()));
        }
        let ghost entries = self.bytes.model();
        let ghost fuel0: nat = (entries.len() + 1) as nat;
        let mut out: Vec<u8> = Vec::new();
        emit_header_line(&mut out, &self.header);
        let ghost hline = header_line(self.header@);
        let n = self.bytes.len();
        let mut i: usize = 0;
        while i < n
            invariant
                self.bytes.wf(),
                entries == self.bytes.model(),
                fuel0 == (entries.len() + 1) as nat,
                hline == header_line(self.header@),
                n == entries.len(),
                n <= usize::MAX,
                0 <= i <= n,
                forall|a: int, b: int|
                    0 <= a < b < entries.len() ==> (#[trigger] entries[a]).0
                        < (#[trigger] entries[b]).0,
                entries.len() > 0 ==> entries[entries.len() - 1].0 < 0x1_0000_0000,
                out@ + render_data(entries, i as int, (n - i + 1) as nat) == hline + render_data(
                    entries,
                    0,
                    fuel0,
                ),
            decreases n - i,
        {
            let base = self.bytes.entry(i).0;
            let mut vals: Vec<u8> = Vec::new();
            vals.push(self.bytes.entry(i).1);
            let mut j: usize = i + 1;
            while j < n && j - i < 16 && self.bytes.entry(j).0 == self.bytes.entry(j - 1).0 + 1
                invariant
                    self.bytes.wf(),
                    entries == self.bytes.model(),
                    n == entries.len(),
                    n <= usize::MAX,
                    0 <= i < j <= n,
                    j - i <= 16,
                    vals@ == run_values(entries, i as int, j as int),
                    base == entries[i as int].0,
                    run_end(entries, i as int, i as int + 1) == run_end(
                        entries,
                        i as int,
                        j as int,
                    ),
                decreases n - j,
            {
                vals.push(self.bytes.entry(j).1);
                proof {
                    assert(vals@ =~= run_values(entries, i as int, j as int + 1));
                }
                j = j + 1;
            }
            proof {
                assert(run_end(entries, i as int, j as int) == j as int);
                assert(vals@ == run_values(entries, i as int, j as int));
                assert(vals@.len() == j - i);
                // The run stays inside the 32-bit address space.
                assert(entries[i as int].0 <= entries[j as int - 1].0) by {
                    if (i as int) < j - 1 {
                        assert(entries[i as int].0 < entries[j as int - 1].0);
                    }
                }
                assert(base + vals@.len() - 1 < 0x1_0000_0000) by {
                    lemma_run_end_props(entries, i as int, i as int + 1);
                    lemma_run_chain(entries, i as int, j as int);
                    assert(entries[j as int - 1].0 == entries[i as int].0 + (j - 1 - i));
                    if j as int - 1 < entries.len() - 1 {
                        assert(entries[j as int - 1].0 < entries[entries.len() - 1].0);
                    }
                }
            }
            emit_data_line(&mut out, base, &vals);
            proof {
                assert(render_data(entries, i as int, (n - i + 1) as nat) == data_line(
                    base,
                    vals@,
                ) + render_data(entries, j as int, (n - i) as nat));
                lemma_run_end_bounds(entries, i as int, i as int + 1);
                lemma_render_fuel(entries, j as int, (n - i) as nat, (n - j + 1) as nat);
            }
            i = j;
        }
        proof {
            assert(render_data(entries, n as int, 1nat) =~= Seq::<u8>::empty());
            assert(out@ + Seq::<u8>::empty() =~= out@);
        }
        match self.start_address {
            Some(start) => {
                emit_eof_line(&mut out, start);
                Ok(out)
            },
            None => {
                proof {
                    assert(out@ + eof_part(self.start_address) =~= out@);
                }
                Ok(out)
            },
        }
    }
}

/// The scan that computes a run's end only passes contiguous
/// addresses.
proof fn lemma_run_end_props(entries: Seq<(u64, u8)>, start: int, k: int)
    requires
        start < k <= entries.len(),
    ensures
        ({
            let e = run_end(entries, start, k);
            &&& k <= e <= entries.len()
            &&& forall|m: int| k <= m < e ==> (#[trigger] entries[m]).0 == entries[m - 1].0 + 1
        }),
    decreases entries.len() - k,
{
    if start < k < entries.len() && k - start < 16 && entries[k].0 == entries[k - 1].0 + 1 {
        lemma_run_end_props(entries, start, k + 1);
    }
}

/// Stepping by one from `i` to `j - 1` adds up.
proof fn lemma_run_chain(entries: Seq<(u64, u8)>, i: int, j: int)
    requires
        0 <= i < j <= entries.len(),
        forall|m: int| i < m < j ==> (#[trigger] entries[m]).0 == entries[m - 1].0 + 1,
    ensures
        entries[j - 1].0 == entries[i].0 + (j - 1 - i),
    decreases j - i,
{
    if j - 1 > i {
        lemma_run_chain(entries, i, j - 1);
    }
}

} // verus!
