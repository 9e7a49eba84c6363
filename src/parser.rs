//! Primitive wire types of the protocol, read from an in-memory byte cursor.

use vstd::prelude::*;
use vstd::utf8::{valid_utf8, decode_utf8};
use vstd::string::StrSliceExecFns;
use crate::outside::{json_accepts, json_value_of, uuid_of, string_from_utf8, parse_json, uuid_from_slice};
use vstd::arithmetic::div_mod::lemma_fundamental_div_mod_converse;
use vstd::arithmetic::power2::{pow2, lemma_pow2_adds, lemma_pow2_strictly_increases, lemma2_to64, lemma2_to64_rest};

verus! {

/// The low seven bits of a variable-length integer byte carry the payload.
pub const SEGMENT_BITS: u8 = 0x7F;

/// The high bit of a variable-length integer byte says that more bytes follow.
pub const CONTINUE_BIT: u8 = 0x80;

/// Why a value could not be decoded.
#[derive(Debug)]
pub enum ParsingError {
    /// The input ended before the value was complete.
    UnexpectedEof,
    /// A VarInt did not terminate within five bytes.
    VarIntTooBig,
    /// A VarLong did not terminate within ten bytes.
    VarLongTooBig,
    /// A string's bytes are not valid UTF-8.
    InvalidUtf8,
    /// A JSON text could not be parsed.
    Json(serde_json::Error),
    /// An identifier is longer than 32767 characters; it carries the identifier.
    IdentifierTooLong(String),
    /// A UUID could not be built from the bytes read.
    Uuid(uuid::Error),
    /// The value's wire format is not supported by this codec.
    UnsupportedFormat,
}

/// A sequential byte source: a buffer and the position of the next unread byte.
/// Its view is the sequence of bytes not read yet.
pub struct ByteReader {
    data: Vec<u8>,
    pos: usize,
}

impl View for ByteReader {
    type V = Seq<u8>;

    closed spec fn view(&self) -> Seq<u8> {
        self.data@.subrange(self.pos as int, self.data@.len() as int)
    }
}

impl ByteReader {
    /// The cursor stands within its buffer.
    pub closed spec fn wf(&self) -> bool {
        self.pos <= self.data@.len()
    }

    /// A reader over `data`, positioned at its first byte.
    pub fn new(data: Vec<u8>) -> (r: ByteReader)
        ensures
            r.wf(),
            r@ == data@,
    {
        let r = ByteReader { data, pos: 0 };
        assert(r@ =~= r.data@);
        r
    }

    /// Number of bytes not read yet.
    pub fn remaining(&self) -> (n: usize)
        requires
            self.wf(),
        ensures
            n == self@.len(),
    {
        self.data.len() - self.pos
    }

    /// The bytes of the buffer, read or not.
    pub closed spec fn source(&self) -> Seq<u8> {
        self.data@
    }

    /// How many bytes of the buffer have been read.
    pub closed spec fn consumed(&self) -> nat {
        self.pos as nat
    }

    /// The number of bytes read so far, to return to with `rewind`.
    pub fn position(&self) -> (m: usize)
        requires
            self.wf(),
        ensures
            m == self.consumed(),
            m <= self.source().len(),
            self@ == self.source().skip(m as int),
    {
        self.pos
    }

    /// Goes back to an earlier position: the bytes after it are unread again.
    pub fn rewind(&mut self, to: usize)
        requires
            old(self).wf(),
            to <= old(self).consumed(),
        ensures
            final(self).wf(),
            final(self).source() == old(self).source(),
            final(self).consumed() == to,
            final(self)@ == old(self).source().skip(to as int),
    {
        self.pos = to;
    }

    /// Reads one byte, or returns `None` at the end of the input.
    pub fn read_byte(&mut self) -> (b: Option<u8>)
        requires
            old(self).wf(),
        ensures
            final(self).wf(),
            final(self).source() == old(self).source(),
            old(self).consumed() <= final(self).consumed(),
            match b {
                Some(x) => old(self)@.len() > 0 && x == old(self)@[0] && final(self)@ == old(self)@.drop_first(),
                None => old(self)@.len() == 0 && final(self)@ == old(self)@,
            },
    {
        if self.pos < self.data.len() {
            let x = self.data[self.pos];
            self.pos = self.pos + 1;
            assert(self@ =~= old(self)@.drop_first());
            Some(x)
        } else {
            None
        }
    }

    /// Reads exactly `n` bytes, or returns `None`, reading nothing, when fewer remain.
    pub fn take(&mut self, n: usize) -> (out: Option<Vec<u8>>)
        requires
            old(self).wf(),
        ensures
            final(self).wf(),
            final(self).source() == old(self).source(),
            old(self).consumed() <= final(self).consumed(),
            match out {
                Some(v) => n <= old(self)@.len() && v@ == old(self)@.take(n as int)
                    && final(self)@ == old(self)@.skip(n as int),
                None => n > old(self)@.len() && final(self)@ == old(self)@,
            },
    {
        if n > self.data.len() - self.pos {
            return None;
        }
        let mut v: Vec<u8> = Vec::with_capacity(n);
        let start = self.pos;
        let mut i: usize = 0;
        while i < n
            invariant
                start + n <= self.data@.len(),
                start + n <= usize::MAX,
                self.pos == start,
                i <= n,
                v@ == self.data@.subrange(start as int, start + i),
            decreases n - i,
        {
            v.push(self.data[start + i]);
            i = i + 1;
            assert(v@ =~= self.data@.subrange(start as int, start + i));
        }
        self.pos = start + n;
        assert(v@ =~= old(self)@.take(n as int));
        assert(self@ =~= old(self)@.skip(n as int));
        Some(v)
    }

    /// Drops the bytes already read once they are at least as many as those
    /// not read yet, so that the buffer stays within twice the unread bytes.
    pub fn compact(&mut self)
        requires
            old(self).wf(),
        ensures
            final(self).wf(),
            final(self)@ == old(self)@,
    {
        let len = self.data.len();
        if self.pos == 0 || self.pos < len - self.pos {
            return;
        }
        let mut data: Vec<u8> = Vec::new();
        let mut i: usize = self.pos;
        while i < len
            invariant
                len == self.data@.len(),
                self.pos <= i <= len,
                data@ == self.data@.subrange(self.pos as int, i as int),
            decreases len - i,
        {
            data.push(self.data[i]);
            i = i + 1;
            assert(data@ =~= self.data@.subrange(self.pos as int, i as int));
        }
        self.data = data;
        self.pos = 0;
        assert(self@ =~= old(self)@);
    }

    /// Appends `bytes` at the end of the input.
    pub fn extend(&mut self, bytes: &[u8])
        requires
            old(self).wf(),
        ensures
            final(self).wf(),
            final(self)@ == old(self)@ + bytes@,
    {
        let mut i: usize = 0;
        while i < bytes.len()
            invariant
                self.pos == old(self).pos,
                old(self).pos <= old(self).data@.len(),
                i <= bytes@.len(),
                self.data@ == old(self).data@ + bytes@.take(i as int),
            decreases bytes@.len() - i,
        {
            self.data.push(bytes[i]);
            i = i + 1;
            assert(self.data@ =~= old(self).data@ + bytes@.take(i as int));
        }
        assert(bytes@.take(bytes@.len() as int) =~= bytes@);
        assert(self@ =~= old(self)@ + bytes@);
    }
}

/// Outcome of scanning a variable-length integer at the front of a byte sequence.
pub enum VarScan {
    /// The encoding ends after this many bytes.
    Complete(nat),
    /// The encoding does not end within the allowed number of bytes.
    Overlong,
    /// The input ends inside the encoding.
    Truncated,
}

/// Scans the variable-length integer at the front of `s`, allowed at most `max` bytes.
/// A byte below 0x80 ends the encoding; a byte with the high bit set that is
/// the `max`-th byte makes the encoding too long.
pub open spec fn var_scan(s: Seq<u8>, max: nat) -> VarScan
    decreases s.len(),
{
    if s.len() == 0 {
        VarScan::Truncated
    } else if s[0] < 128 {
        VarScan::Complete(1)
    } else if max <= 1 {
        VarScan::Overlong
    } else {
        match var_scan(s.drop_first(), (max - 1) as nat) {
            VarScan::Complete(n) => VarScan::Complete(n + 1),
            other => other,
        }
    }
}

/// The number carried by the first `n` bytes of `s`: base-128 digits, least
/// significant first, each the low seven bits of a byte.
pub open spec fn var_value(s: Seq<u8>, n: nat) -> nat
    decreases n,
{
    if n == 0 || s.len() == 0 {
        0
    } else {
        (s[0] % 128) as nat + 128 * var_value(s.drop_first(), (n - 1) as nat)
    }
}

/// The canonical encoding of `v`: as few base-128 digits as possible, the
/// high bit set on every byte but the last.
pub open spec fn var_encoding(v: nat) -> Seq<u8>
    decreases v,
{
    if v < 128 {
        seq![v as u8]
    } else {
        seq![(v % 128 + 128) as u8] + var_encoding(v / 128)
    }
}

proof fn lemma_low_bits(b: u8)
    ensures
        b & SEGMENT_BITS == b % 128,
        (b & CONTINUE_BIT == 0) == (b < 128),
{
    assert(b & 0x7F == b % 128) by (bit_vector);
    assert((b & 0x80 == 0) == (b < 128)) by (bit_vector);
}

/// Extending the scanned prefix by one byte adds that byte's digit at its place.
proof fn lemma_var_value_extend(s: Seq<u8>, n: nat)
    requires
        n < s.len(),
    ensures
        var_value(s, n + 1) == var_value(s, n) + (s[n as int] % 128) as nat * pow2(7 * n),
    decreases n,
{
    if n == 0 {
        assert(var_value(s.drop_first(), 0) == 0);
        assert(var_value(s, 1) == (s[0] % 128) as nat);
        lemma2_to64();
        assert(pow2(0) == 1);
        assert(pow2(7 * n) == 1);
        assert(var_value(s, n) == 0);
        assert((s[n as int] % 128) as nat * pow2(7 * n) == (s[0] % 128) as nat);
    } else {
        let t = s.drop_first();
        lemma_var_value_extend(t, (n - 1) as nat);
        assert(t[(n - 1) as int] == s[n as int]);
        let d = (s[n as int] % 128) as nat;
        let p = pow2((7 * (n - 1)) as nat);
        lemma_pow2_adds(7, (7 * (n - 1)) as nat);
        lemma2_to64();
        assert(pow2(7 * n) == 128 * p);
        assert(var_value(s, n + 1) == (s[0] % 128) as nat + 128 * var_value(t, n));
        assert(var_value(s, n) == (s[0] % 128) as nat + 128 * var_value(t, (n - 1) as nat));
        assert(128 * (var_value(t, (n - 1) as nat) + d * p) == 128 * var_value(t, (n - 1) as nat) + d * (128 * p)) by (nonlinear_arith);
        assert(d * pow2(7 * n) == d * (128 * p));
        assert(var_value(s, n + 1) == var_value(s, n) + d * pow2(7 * n));
    }
}

/// A scan that has passed `i` continuation bytes, still within `max`, goes on
/// at byte `i` with `i` fewer bytes allowed.
proof fn lemma_var_scan_prefix(s: Seq<u8>, max: nat, i: nat)
    requires
        i < max,
        i <= s.len(),
        forall|j: int| 0 <= j < i ==> s[j] >= 128,
    ensures
        var_scan(s, max) == match var_scan(s.skip(i as int), (max - i) as nat) {
            VarScan::Complete(n) => VarScan::Complete(n + i),
            other => other,
        },
    decreases i,
{
    if i == 0 {
        assert(s.skip(0) =~= s);
        match var_scan(s, max) {
            VarScan::Complete(n) => {},
            _ => {},
        }
    } else {
        let t = s.drop_first();
        lemma_var_scan_prefix(t, (max - 1) as nat, (i - 1) as nat);
        assert(t.skip((i - 1) as int) =~= s.skip(i as int));
    }
}

/// Failure of a variable-length integer scan.
enum VarFault {
    Overlong,
    Truncated,
}

/// Reads a variable-length integer of at most `max` bytes, returning its value
/// without truncation and the number of bytes it took.
fn read_var_groups(r: &mut ByteReader, max: usize) -> (res: Result<(u128, usize), VarFault>)
    requires
        old(r).wf(),
        1 <= max <= 10,
    ensures
        final(r).wf(),
        final(r).source() == old(r).source(),
        old(r).consumed() <= final(r).consumed(),
        match var_scan(old(r)@, max as nat) {
            VarScan::Complete(n) => res matches Ok((v, k)) && v == var_value(old(r)@, n) && k == n
                && final(r)@ == old(r)@.skip(n as int),
            VarScan::Overlong => res matches Err(VarFault::Overlong) && final(r)@ == old(r)@.skip(max as int),
            VarScan::Truncated => res matches Err(VarFault::Truncated) && final(r)@.len() == 0,
        },
{
    let ghost s = r@;
    let mut acc: u128 = 0;
    let mut mult: u128 = 1;
    let mut i: usize = 0;
    proof {
        lemma2_to64();
        lemma2_to64_rest();
    }
    loop
        invariant
            r.wf(),
            1 <= max <= 10,
            i < max,
            i <= s.len(),
            s == old(r)@,
            r.source() == old(r).source(),
            old(r).consumed() <= r.consumed(),
            r@ == s.skip(i as int),
            acc == var_value(s, i as nat),
            mult == pow2(7 * i as nat),
            acc < mult,
            mult <= pow2(63),
            forall|j: int| 0 <= j < i ==> s[j] >= 128,
        decreases max - i,
    {
        proof {
            lemma2_to64();
            lemma2_to64_rest();
            lemma_var_scan_prefix(s, max as nat, i as nat);
        }
        match r.read_byte() {
            None => {
                assert(s.skip(i as int).len() == 0);
                assert(var_scan(s.skip(i as int), (max - i) as nat) == VarScan::Truncated);
                return Err(VarFault::Truncated);
            },
            Some(b) => {
                assert(b == s[i as int]);
                assert(r@ =~= s.skip(i + 1));
                proof {
                    lemma_low_bits(b);
                    lemma_var_value_extend(s, i as nat);
                    assert(((b % 128) as u128) * mult <= 127 * 0x8000_0000_0000_0000) by (nonlinear_arith)
                        requires b % 128 <= 127, mult <= 0x8000_0000_0000_0000;
                }
                acc = acc + ((b & SEGMENT_BITS) as u128) * mult;
                proof {
                    assert(acc < 128 * mult) by (nonlinear_arith)
                        requires acc == var_value(s, i as nat) + (b % 128) as nat * mult,
                            var_value(s, i as nat) < mult, b % 128 <= 127;
                    lemma_pow2_adds(7 * i as nat, 7);
                }
                if b & CONTINUE_BIT == 0 {
                    assert(var_scan(s.skip(i as int), (max - i) as nat) == VarScan::Complete(1));
                    return Ok((acc, i + 1));
                }
                if i + 1 >= max {
                    return Err(VarFault::Overlong);
                }
                proof {
                    lemma_pow2_strictly_increases(7 * i as nat, 63);
                    lemma_pow2_adds(56, 7);
                    if i < 8 {
                        lemma_pow2_strictly_increases(7 * i as nat, 56);
                    }
                }
                mult = mult * 128;
                i = i + 1;
            },
        }
    }
}

/// The canonical encoding of a value below 128 to the power `max`, followed by
/// anything, scans as complete after exactly its own bytes and carries the value.
proof fn lemma_var_encoding(v: nat, max: nat, rest: Seq<u8>)
    requires
        1 <= max,
        v < pow2(7 * max),
    ensures
        var_scan(var_encoding(v) + rest, max) == VarScan::Complete(var_encoding(v).len()),
        var_value(var_encoding(v) + rest, var_encoding(v).len()) == v,
    decreases v,
{
    let e = var_encoding(v);
    let s = e + rest;
    lemma2_to64();
    if v < 128 {
        assert(s[0] == v as u8);
        assert(var_value(s.drop_first(), 0) == 0);
    } else {
        let u = v / 128;
        let d = v % 128;
        if max <= 1 {
            lemma_pow2_strictly_increases(7 * max, 7);
            assert(false);
        }
        let m = (max - 1) as nat;
        lemma_pow2_adds(7 * m, 7);
        assert(7 * max == 7 * m + 7);
        assert(v < pow2(7 * m) * 128);
        assert(u < pow2(7 * m)) by (nonlinear_arith)
            requires u == v / 128, v < pow2(7 * m) * 128;
        lemma_var_encoding(u, m, rest);
        let t = var_encoding(u) + rest;
        assert(s.drop_first() =~= t);
        assert(s[0] == (d + 128) as u8);
        assert(s[0] % 128 == d);
        assert(var_value(s, e.len()) == d + 128 * var_value(t, var_encoding(u).len()));
        assert(v == d + 128 * u);
    }
}

/// Decoding the canonical encoding of any 32-bit value, whatever follows it,
/// takes exactly the encoding's bytes and gives the value back.
pub proof fn lemma_varint_round_trip(v: u32, rest: Seq<u8>)
    ensures
        var_encoding(v as nat).len() <= 5,
        var_scan(var_encoding(v as nat) + rest, 5) == VarScan::Complete(var_encoding(v as nat).len()),
        var_value(var_encoding(v as nat) + rest, var_encoding(v as nat).len()) % 0x1_0000_0000 == v,
{
    lemma2_to64();
    lemma2_to64_rest();
    lemma_pow2_strictly_increases(32, 35);
    lemma_var_encoding(v as nat, 5, rest);
    lemma_var_scan_len(var_encoding(v as nat) + rest, 5);
}

/// Decoding the canonical encoding of any 64-bit value, whatever follows it,
/// takes exactly the encoding's bytes and gives the value back.
pub proof fn lemma_varlong_round_trip(v: u64, rest: Seq<u8>)
    ensures
        var_encoding(v as nat).len() <= 10,
        var_scan(var_encoding(v as nat) + rest, 10) == VarScan::Complete(var_encoding(v as nat).len()),
        var_value(var_encoding(v as nat) + rest, var_encoding(v as nat).len()) % 0x1_0000_0000_0000_0000 == v,
{
    lemma2_to64();
    lemma2_to64_rest();
    lemma_pow2_strictly_increases(64, 70);
    lemma_var_encoding(v as nat, 10, rest);
    lemma_var_scan_len(var_encoding(v as nat) + rest, 10);
}

/// A complete scan never takes more than the allowed number of bytes, nor
/// more than there are.
pub proof fn lemma_var_scan_len(s: Seq<u8>, max: nat)
    requires
        1 <= max,
    ensures
        var_scan(s, max) matches VarScan::Complete(n) ==> 1 <= n <= max && n <= s.len(),
    decreases s.len(),
{
    if s.len() > 0 && s[0] >= 128 && max > 1 {
        lemma_var_scan_len(s.drop_first(), (max - 1) as nat);
    }
}

/// Input whose first `max` bytes all carry the continuation bit is rejected
/// as too long, whatever follows.
pub proof fn lemma_var_overlong(s: Seq<u8>, max: nat)
    requires
        1 <= max <= s.len(),
        forall|j: int| 0 <= j < max ==> s[j] >= 128,
    ensures
        var_scan(s, max) == VarScan::Overlong,
    decreases max,
{
    if max > 1 {
        let t = s.drop_first();
        assert forall|j: int| 0 <= j < max - 1 implies t[j] >= 128 by {
            assert(t[j] == s[j + 1]);
        }
        lemma_var_overlong(t, (max - 1) as nat);
    }
}

/// Reads a VarInt and the number of bytes it took. Bytes are read one at a
/// time, their low seven bits accumulated from the least significant group
/// up; a VarInt that has not ended after five bytes is too big.
pub fn read_varint_and_get_size(r: &mut ByteReader) -> (res: Result<(u32, u32), ParsingError>)
    requires
        old(r).wf(),
    ensures
        final(r).wf(),
        final(r).source() == old(r).source(),
        old(r).consumed() <= final(r).consumed(),
        match var_scan(old(r)@, 5) {
            VarScan::Complete(n) => res matches Ok((v, k)) && v as nat == var_value(old(r)@, n) % 0x1_0000_0000
                && k == n && final(r)@ == old(r)@.skip(n as int),
            VarScan::Overlong => res matches Err(ParsingError::VarIntTooBig) && final(r)@ == old(r)@.skip(5),
            VarScan::Truncated => res matches Err(ParsingError::UnexpectedEof) && final(r)@.len() == 0,
        },
{
    proof {
        lemma_var_scan_len(r@, 5);
    }
    match read_var_groups(r, 5) {
        Ok((v, k)) => Ok(((v % 0x1_0000_0000) as u32, k as u32)),
        Err(VarFault::Overlong) => Err(ParsingError::VarIntTooBig),
        Err(VarFault::Truncated) => Err(ParsingError::UnexpectedEof),
    }
}

/// Reads a VarInt: at most five bytes, seven bits each, least significant group first.
pub fn read_varint(r: &mut ByteReader) -> (res: Result<u32, ParsingError>)
    requires
        old(r).wf(),
    ensures
        final(r).wf(),
        final(r).source() == old(r).source(),
        old(r).consumed() <= final(r).consumed(),
        match var_scan(old(r)@, 5) {
            VarScan::Complete(n) => res matches Ok(v) && v as nat == var_value(old(r)@, n) % 0x1_0000_0000
                && final(r)@ == old(r)@.skip(n as int),
            VarScan::Overlong => res matches Err(ParsingError::VarIntTooBig) && final(r)@ == old(r)@.skip(5),
            VarScan::Truncated => res matches Err(ParsingError::UnexpectedEof) && final(r)@.len() == 0,
        },
{
    match read_varint_and_get_size(r) {
        Ok((v, _)) => Ok(v),
        Err(e) => Err(e),
    }
}

/// Reads a VarLong: at most ten bytes, seven bits each, least significant group first.
pub fn read_varlong(r: &mut ByteReader) -> (res: Result<u64, ParsingError>)
    requires
        old(r).wf(),
    ensures
        final(r).wf(),
        match var_scan(old(r)@, 10) {
            VarScan::Complete(n) => res matches Ok(v) && v as nat == var_value(old(r)@, n) % 0x1_0000_0000_0000_0000
                && final(r)@ == old(r)@.skip(n as int),
            VarScan::Overlong => res matches Err(ParsingError::VarLongTooBig) && final(r)@ == old(r)@.skip(10),
            VarScan::Truncated => res matches Err(ParsingError::UnexpectedEof) && final(r)@.len() == 0,
        },
{
    match read_var_groups(r, 10) {
        Ok((v, _)) => Ok((v % 0x1_0000_0000_0000_0000) as u64),
        Err(VarFault::Overlong) => Err(ParsingError::VarLongTooBig),
        Err(VarFault::Truncated) => Err(ParsingError::UnexpectedEof),
    }
}

/// The number that `s` denotes as a big-endian unsigned integer.
pub open spec fn be_value(s: Seq<u8>) -> nat
    decreases s.len(),
{
    if s.len() == 0 {
        0
    } else {
        be_value(s.drop_last()) * 256 + s.last() as nat
    }
}

/// The two's complement reading of an unsigned `width`-bit value.
pub open spec fn twos_complement(v: nat, width: nat) -> int {
    if 2 * v >= pow2(width) {
        v - pow2(width)
    } else {
        v as int
    }
}

/// Reads `n` bytes as a big-endian unsigned integer.
fn read_be(r: &mut ByteReader, n: usize) -> (res: Result<u64, ParsingError>)
    requires
        old(r).wf(),
        1 <= n <= 8,
    ensures
        final(r).wf(),
        if n <= old(r)@.len() {
            res matches Ok(v) && v == be_value(old(r)@.take(n as int)) && v < pow2(8 * n as nat)
                && final(r)@ == old(r)@.skip(n as int)
        } else {
            res matches Err(ParsingError::UnexpectedEof) && final(r)@ == old(r)@
        },
{
    match r.take(n) {
        None => Err(ParsingError::UnexpectedEof),
        Some(bytes) => {
            let mut acc: u64 = 0;
            let mut i: usize = 0;
            proof {
                assert(bytes@.take(0) =~= Seq::<u8>::empty());
                lemma2_to64();
            }
            while i < n
                invariant
                    bytes@.len() == n,
                    n <= 8,
                    i <= n,
                    acc == be_value(bytes@.take(i as int)),
                    acc < pow2(8 * i as nat),
                decreases n - i,
            {
                proof {
                    lemma2_to64();
                    lemma2_to64_rest();
                    lemma_pow2_adds(8 * i as nat, 8);
                    if i + 1 < 8 {
                        lemma_pow2_strictly_increases(8 * (i + 1) as nat, 64);
                    }
                    assert(bytes@.take(i + 1).drop_last() =~= bytes@.take(i as int));
                    let b = bytes@[i as int];
                    assert(acc * 256 + b < pow2(8 * i as nat) * 256) by (nonlinear_arith)
                        requires acc < pow2(8 * i as nat), b < 256;
                }
                acc = acc * 256 + bytes[i] as u64;
                i = i + 1;
            }
            assert(bytes@.take(n as int) =~= bytes@);
            Ok(acc)
        },
    }
}

/// Reads one byte.
pub fn read_u8(r: &mut ByteReader) -> (res: Result<u8, ParsingError>)
    requires
        old(r).wf(),
    ensures
        final(r).wf(),
        if old(r)@.len() >= 1 {
            res matches Ok(v) && v == old(r)@[0] && final(r)@ == old(r)@.drop_first()
        } else {
            res matches Err(ParsingError::UnexpectedEof) && final(r)@ == old(r)@
        },
{
    match r.read_byte() {
        Some(b) => Ok(b),
        None => Err(ParsingError::UnexpectedEof),
    }
}

/// Reads a boolean: one byte, true unless it is zero.
pub fn read_boolean(r: &mut ByteReader) -> (res: Result<bool, ParsingError>)
    requires
        old(r).wf(),
    ensures
        final(r).wf(),
        if old(r)@.len() >= 1 {
            res matches Ok(v) && v == (old(r)@[0] != 0) && final(r)@ == old(r)@.drop_first()
        } else {
            res matches Err(ParsingError::UnexpectedEof) && final(r)@ == old(r)@
        },
{
    match read_u8(r) {
        Ok(b) => Ok(b != 0),
        Err(e) => Err(e),
    }
}

/// Reads a signed byte, two's complement.
pub fn read_i8(r: &mut ByteReader) -> (res: Result<i8, ParsingError>)
    requires
        old(r).wf(),
    ensures
        final(r).wf(),
        if old(r)@.len() >= 1 {
            res matches Ok(v) && v == twos_complement(old(r)@[0] as nat, 8) && final(r)@ == old(r)@.drop_first()
        } else {
            res matches Err(ParsingError::UnexpectedEof) && final(r)@ == old(r)@
        },
{
    proof {
        lemma2_to64();
    }
    match read_u8(r) {
        Ok(b) => {
            if b >= 128 {
                Ok((b as i16 - 256) as i8)
            } else {
                Ok(b as i8)
            }
        },
        Err(e) => Err(e),
    }
}

/// Reads an angle: one byte, in steps of 1/256 of a full turn.
pub fn read_angle(r: &mut ByteReader) -> (res: Result<u8, ParsingError>)
    requires
        old(r).wf(),
    ensures
        final(r).wf(),
        if old(r)@.len() >= 1 {
            res matches Ok(v) && v == old(r)@[0] && final(r)@ == old(r)@.drop_first()
        } else {
            res matches Err(ParsingError::UnexpectedEof) && final(r)@ == old(r)@
        },
{
    read_u8(r)
}

/// Reads a big-endian unsigned 16-bit integer.
pub fn read_u16(r: &mut ByteReader) -> (res: Result<u16, ParsingError>)
    requires
        old(r).wf(),
    ensures
        final(r).wf(),
        if old(r)@.len() >= 2 {
            res matches Ok(v) && v == be_value(old(r)@.take(2)) && final(r)@ == old(r)@.skip(2)
        } else {
            res matches Err(ParsingError::UnexpectedEof) && final(r)@ == old(r)@
        },
{
    proof {
        lemma2_to64();
    }
    match read_be(r, 2) {
        Ok(v) => Ok(v as u16),
        Err(e) => Err(e),
    }
}

/// Reads a big-endian signed 16-bit integer, two's complement.
pub fn read_i16(r: &mut ByteReader) -> (res: Result<i16, ParsingError>)
    requires
        old(r).wf(),
    ensures
        final(r).wf(),
        if old(r)@.len() >= 2 {
            res matches Ok(v) && v == twos_complement(be_value(old(r)@.take(2)), 16) && final(r)@ == old(r)@.skip(2)
        } else {
            res matches Err(ParsingError::UnexpectedEof) && final(r)@ == old(r)@
        },
{
    proof {
        lemma2_to64();
    }
    match read_be(r, 2) {
        Ok(v) => {
            if v >= 0x8000 {
                Ok((v as i32 - 0x1_0000) as i16)
            } else {
                Ok(v as i16)
            }
        },
        Err(e) => Err(e),
    }
}

/// Reads a big-endian signed 32-bit integer, two's complement.
pub fn read_i32(r: &mut ByteReader) -> (res: Result<i32, ParsingError>)
    requires
        old(r).wf(),
    ensures
        final(r).wf(),
        if old(r)@.len() >= 4 {
            res matches Ok(v) && v == twos_complement(be_value(old(r)@.take(4)), 32) && final(r)@ == old(r)@.skip(4)
        } else {
            res matches Err(ParsingError::UnexpectedEof) && final(r)@ == old(r)@
        },
{
    proof {
        lemma2_to64();
    }
    match read_be(r, 4) {
        Ok(v) => {
            if v >= 0x8000_0000 {
                Ok((v as i64 - 0x1_0000_0000) as i32)
            } else {
                Ok(v as i32)
            }
        },
        Err(e) => Err(e),
    }
}

/// Reads a big-endian signed 64-bit integer, two's complement.
pub fn read_i64(r: &mut ByteReader) -> (res: Result<i64, ParsingError>)
    requires
        old(r).wf(),
    ensures
        final(r).wf(),
        if old(r)@.len() >= 8 {
            res matches Ok(v) && v == twos_complement(be_value(old(r)@.take(8)), 64) && final(r)@ == old(r)@.skip(8)
        } else {
            res matches Err(ParsingError::UnexpectedEof) && final(r)@ == old(r)@
        },
{
    proof {
        lemma2_to64();
        lemma2_to64_rest();
    }
    match read_be(r, 8) {
        Ok(v) => {
            if v >= 0x8000_0000_0000_0000 {
                Ok((v as i128 - 0x1_0000_0000_0000_0000) as i64)
            } else {
                Ok(v as i64)
            }
        },
        Err(e) => Err(e),
    }
}

/// Reads a block position: one big-endian 64-bit word packing x in its top
/// 26 bits, z in the next 26 and y in the low 12, returned as the packed word.
pub fn read_position(r: &mut ByteReader) -> (res: Result<u64, ParsingError>)
    requires
        old(r).wf(),
    ensures
        final(r).wf(),
        if old(r)@.len() >= 8 {
            res matches Ok(v) && v == be_value(old(r)@.take(8)) && final(r)@ == old(r)@.skip(8)
        } else {
            res matches Err(ParsingError::UnexpectedEof) && final(r)@ == old(r)@
        },
{
    read_be(r, 8)
}

/// Reads exactly `size` bytes.
pub fn read_exact_bytes(r: &mut ByteReader, size: usize) -> (res: Result<Vec<u8>, ParsingError>)
    requires
        old(r).wf(),
    ensures
        final(r).wf(),
        final(r).source() == old(r).source(),
        old(r).consumed() <= final(r).consumed(),
        if size <= old(r)@.len() {
            res matches Ok(v) && v@ == old(r)@.take(size as int) && final(r)@ == old(r)@.skip(size as int)
        } else {
            res matches Err(ParsingError::UnexpectedEof) && final(r)@ == old(r)@
        },
{
    match r.take(size) {
        Some(v) => Ok(v),
        None => Err(ParsingError::UnexpectedEof),
    }
}

/// Reads exactly `size` bytes into `output_buffer`, replacing what it held;
/// on failure the buffer is left as it was.
pub fn read_exact_bytes_into_buffer(r: &mut ByteReader, size: usize, output_buffer: &mut Vec<u8>) -> (res: Result<(), ParsingError>)
    requires
        old(r).wf(),
    ensures
        final(r).wf(),
        if size <= old(r)@.len() {
            res is Ok && final(output_buffer)@ == old(r)@.take(size as int) && final(r)@ == old(r)@.skip(size as int)
        } else {
            res matches Err(ParsingError::UnexpectedEof) && final(r)@ == old(r)@
                && final(output_buffer)@ == old(output_buffer)@
        },
{
    match r.take(size) {
        Some(v) => {
            *output_buffer = v;
            Ok(())
        },
        None => Err(ParsingError::UnexpectedEof),
    }
}

/// Outcome of reading a VarInt byte count and that many bytes.
pub enum BlobScan {
    /// The bytes announced, and the number of bytes taken with the prefix.
    Blob { bytes: Seq<u8>, used: nat },
    /// The length prefix is too long a VarInt.
    TooBig,
    /// The input ends inside the prefix or the bytes; `used` bytes are taken
    /// before that is found: all of them, or just the prefix.
    Truncated { used: nat },
}

/// Reads a VarInt byte count at the front of `s` and the bytes that follow it.
pub open spec fn blob_scan(s: Seq<u8>) -> BlobScan {
    match var_scan(s, 5) {
        VarScan::Complete(n) => {
            let len = var_value(s, n) % 0x1_0000_0000;
            if n + len <= s.len() {
                BlobScan::Blob { bytes: s.subrange(n as int, (n + len) as int), used: n + len }
            } else {
                BlobScan::Truncated { used: n }
            }
        },
        VarScan::Overlong => BlobScan::TooBig,
        VarScan::Truncated => BlobScan::Truncated { used: s.len() },
    }
}

/// Reads a VarInt byte count and that many bytes.
fn read_blob(r: &mut ByteReader) -> (res: Result<Vec<u8>, ParsingError>)
    requires
        old(r).wf(),
    ensures
        final(r).wf(),
        match blob_scan(old(r)@) {
            BlobScan::Blob { bytes, used } => res matches Ok(v) && v@ == bytes
                && final(r)@ == old(r)@.skip(used as int),
            BlobScan::TooBig => res matches Err(ParsingError::VarIntTooBig) && final(r)@ == old(r)@.skip(5),
            BlobScan::Truncated { used } => res matches Err(ParsingError::UnexpectedEof)
                && final(r)@ == old(r)@.skip(used as int),
        },
{
    let ghost s = r@;
    proof {
        lemma_var_scan_len(s, 5);
    }
    let length = match read_varint(r) {
        Ok(v) => v,
        Err(e) => {
            return Err(e);
        },
    };
    let ghost n: nat = match var_scan(s, 5) { VarScan::Complete(k) => k, _ => 0 };
    assert(var_scan(s, 5) is Complete);
    assert(r@ == s.skip(n as int));
    assert(length as nat == var_value(s, n) % 0x1_0000_0000);
    match r.take(length as usize) {
        Some(v) => {
            assert(v@ =~= s.subrange(n as int, (n + length) as int));
            assert(r@ =~= s.skip((n + length) as int));
            Ok(v)
        },
        None => Err(ParsingError::UnexpectedEof),
    }
}

/// Reads a string: a VarInt byte count, then that many bytes of UTF-8. Bytes
/// that are not valid UTF-8 are an error, never replaced.
pub fn read_string(r: &mut ByteReader) -> (res: Result<String, ParsingError>)
    requires
        old(r).wf(),
    ensures
        final(r).wf(),
        match blob_scan(old(r)@) {
            BlobScan::Blob { bytes, used } => if valid_utf8(bytes) {
                res matches Ok(t) && t@ == decode_utf8(bytes) && final(r)@ == old(r)@.skip(used as int)
            } else {
                res matches Err(ParsingError::InvalidUtf8) && final(r)@ == old(r)@.skip(used as int)
            },
            BlobScan::TooBig => res matches Err(ParsingError::VarIntTooBig) && final(r)@ == old(r)@.skip(5),
            BlobScan::Truncated { used } => res matches Err(ParsingError::UnexpectedEof)
                && final(r)@ == old(r)@.skip(used as int),
        },
{
    let bytes = match read_blob(r) {
        Ok(b) => b,
        Err(e) => {
            return Err(e);
        },
    };
    match string_from_utf8(bytes) {
        Some(t) => Ok(t),
        None => Err(ParsingError::InvalidUtf8),
    }
}

/// Longest identifier accepted, in decoded characters.
pub const MAX_IDENTIFIER_LEN: usize = 32767;

/// Reads an identifier: a string of at most 32767 decoded characters.
pub fn read_identifier(r: &mut ByteReader) -> (res: Result<String, ParsingError>)
    requires
        old(r).wf(),
    ensures
        final(r).wf(),
        match blob_scan(old(r)@) {
            BlobScan::Blob { bytes, used } => if valid_utf8(bytes) {
                let text = decode_utf8(bytes);
                if text.len() > MAX_IDENTIFIER_LEN {
                    res matches Err(ParsingError::IdentifierTooLong(t)) && t@ == text && final(r)@ == old(r)@.skip(used as int)
                } else {
                    res matches Ok(t) && t@ == text && final(r)@ == old(r)@.skip(used as int)
                }
            } else {
                res matches Err(ParsingError::InvalidUtf8) && final(r)@ == old(r)@.skip(used as int)
            },
            BlobScan::TooBig => res matches Err(ParsingError::VarIntTooBig) && final(r)@ == old(r)@.skip(5),
            BlobScan::Truncated { used } => res matches Err(ParsingError::UnexpectedEof)
                && final(r)@ == old(r)@.skip(used as int),
        },
{
    let bytes = match read_blob(r) {
        Ok(b) => b,
        Err(e) => {
            return Err(e);
        },
    };
    match string_from_utf8(bytes) {
        Some(t) => {
            if t.as_str().unicode_len() > MAX_IDENTIFIER_LEN {
                Err(ParsingError::IdentifierTooLong(t))
            } else {
                Ok(t)
            }
        },
        None => Err(ParsingError::InvalidUtf8),
    }
}

/// Reads a JSON document: a VarInt byte count, then that many bytes of UTF-8
/// text, parsed as JSON.
pub fn read_json(r: &mut ByteReader) -> (res: Result<serde_json::Value, ParsingError>)
    requires
        old(r).wf(),
    ensures
        final(r).wf(),
        match blob_scan(old(r)@) {
            BlobScan::Blob { bytes, used } => if valid_utf8(bytes) {
                let text = decode_utf8(bytes);
                if json_accepts(text) {
                    res matches Ok(v) && v == json_value_of(text) && final(r)@ == old(r)@.skip(used as int)
                } else {
                    res matches Err(ParsingError::Json(_)) && final(r)@ == old(r)@.skip(used as int)
                }
            } else {
                res matches Err(ParsingError::InvalidUtf8) && final(r)@ == old(r)@.skip(used as int)
            },
            BlobScan::TooBig => res matches Err(ParsingError::VarIntTooBig) && final(r)@ == old(r)@.skip(5),
            BlobScan::Truncated { used } => res matches Err(ParsingError::UnexpectedEof)
                && final(r)@ == old(r)@.skip(used as int),
        },
{
    let text = match read_string(r) {
        Ok(t) => t,
        Err(e) => {
            return Err(e);
        },
    };
    match parse_json(text.as_str()) {
        Ok(v) => Ok(v),
        Err(e) => Err(ParsingError::Json(e)),
    }
}

/// Reads a UUID: sixteen bytes, the most significant half first.
pub fn read_uuid(r: &mut ByteReader) -> (res: Result<uuid::Uuid, ParsingError>)
    requires
        old(r).wf(),
    ensures
        final(r).wf(),
        if old(r)@.len() >= 16 {
            res matches Ok(u) && u == uuid_of(old(r)@.take(16)) && final(r)@ == old(r)@.skip(16)
        } else {
            res matches Err(ParsingError::UnexpectedEof) && final(r)@ == old(r)@
        },
{
    let bytes = match r.take(16) {
        Some(b) => b,
        None => {
            return Err(ParsingError::UnexpectedEof);
        },
    };
    match uuid_from_slice(bytes.as_slice()) {
        Ok(u) => Ok(u),
        Err(e) => Err(ParsingError::Uuid(e)),
    }
}

/// Miscellaneous entity data; its wire format is not supported, so this
/// fails at once and reads nothing.
pub fn read_entity_metadata(r: &mut ByteReader) -> (res: Result<Vec<u8>, ParsingError>)
    requires
        old(r).wf(),
    ensures
        final(r).wf(),
        final(r)@ == old(r)@,
        res matches Err(ParsingError::UnsupportedFormat),
{
    Err(ParsingError::UnsupportedFormat)
}

/// An item stack; its wire format is not supported, so this fails at once
/// and reads nothing.
pub fn read_slot(r: &mut ByteReader) -> (res: Result<u8, ParsingError>)
    requires
        old(r).wf(),
    ensures
        final(r).wf(),
        final(r)@ == old(r)@,
        res matches Err(ParsingError::UnsupportedFormat),
{
    Err(ParsingError::UnsupportedFormat)
}

/// A text component, sent as an NBT tag; its wire format is not supported, so
/// this fails at once and reads nothing.
pub fn read_text_component(r: &mut ByteReader) -> (res: Result<String, ParsingError>)
    requires
        old(r).wf(),
    ensures
        final(r).wf(),
        final(r)@ == old(r)@,
        res matches Err(ParsingError::UnsupportedFormat),
{
    Err(ParsingError::UnsupportedFormat)
}

/// Bit `i` of a run of big-endian 64-bit words: bit `i % 64` of word `i / 64`.
pub open spec fn word_bit(words: Seq<u8>, i: int) -> bool {
    let w = i / 64;
    ((be_value(words.subrange(8 * w, 8 * w + 8)) as u64 >> ((i % 64) as u64)) & 1) == 1
}

/// Bit `i` of a run of bytes: bit `i % 8` of byte `i / 8`.
pub open spec fn byte_bit(bytes: Seq<u8>, i: int) -> bool {
    ((bytes[i / 8] >> ((i % 8) as u8)) & 1) == 1
}

/// Reads a bit set: a VarInt count of 64-bit words, then that many big-endian
/// words, expanded to one boolean per bit, 64 per word.
pub fn read_bitset(r: &mut ByteReader) -> (res: Result<Vec<bool>, ParsingError>)
    requires
        old(r).wf(),
    ensures
        final(r).wf(),
        match var_scan(old(r)@, 5) {
            VarScan::Complete(n) => {
                let count = var_value(old(r)@, n) % 0x1_0000_0000;
                if n + 8 * count <= old(r)@.len() {
                    let words = old(r)@.subrange(n as int, (n + 8 * count) as int);
                    res matches Ok(bits) && bits@.len() == 64 * count
                        && (forall|i: int| 0 <= i < 64 * count ==> bits@[i] == word_bit(words, i))
                        && final(r)@ == old(r)@.skip((n + 8 * count) as int)
                } else {
                    res matches Err(ParsingError::UnexpectedEof) && final(r)@ == old(r)@.skip(n as int)
                }
            },
            VarScan::Overlong => res matches Err(ParsingError::VarIntTooBig) && final(r)@ == old(r)@.skip(5),
            VarScan::Truncated => res matches Err(ParsingError::UnexpectedEof) && final(r)@.len() == 0,
        },
{
    let ghost s = r@;
    proof {
        lemma_var_scan_len(s, 5);
    }
    let count = match read_varint(r) {
        Ok(v) => v,
        Err(e) => {
            return Err(e);
        },
    };
    let ghost n: nat = match var_scan(s, 5) { VarScan::Complete(k) => k, _ => 0 };
    if count as usize > r.remaining() / 8 {
        return Err(ParsingError::UnexpectedEof);
    }
    let ghost words = s.subrange(n as int, n + 8 * count);
    let mut bits: Vec<bool> = Vec::new();
    let mut w: u32 = 0;
    while w < count
        invariant
            r.wf(),
            w <= count,
            n + 8 * count <= s.len(),
            words == s.subrange(n as int, n + 8 * count),
            r@ == s.skip(n + 8 * w),
            bits@.len() == 64 * w,
            forall|i: int| 0 <= i < 64 * w ==> bits@[i] == word_bit(words, i),
        decreases count - w,
    {
        let word = match read_be(r, 8) {
            Ok(v) => v,
            Err(e) => {
                return Err(e);
            },
        };
        proof {
            assert(s.skip(n + 8 * w).take(8) =~= words.subrange(8 * w, 8 * w + 8));
            assert(r@ =~= s.skip(n + 8 * (w + 1)));
        }
        let mut k: u64 = 0;
        while k < 64
            invariant
                w < count,
                k <= 64,
                word == be_value(words.subrange(8 * w, 8 * w + 8)),
                bits@.len() == 64 * w + k,
                forall|i: int| 0 <= i < 64 * w + k ==> bits@[i] == word_bit(words, i),
            decreases 64 - k,
        {
            proof {
                lemma_fundamental_div_mod_converse(64 * w + k, 64, w as int, k as int);
            }
            bits.push((word >> k) & 1 == 1);
            k = k + 1;
        }
        w = w + 1;
    }
    Ok(bits)
}

/// Number of bytes that a fixed bit set of `n` bits takes: `n / 8` rounded up.
pub open spec fn fixed_bitset_len(n: nat) -> nat {
    (n + 7) / 8
}

/// Reads a fixed bit set of `size` bits: `size / 8` bytes rounded up, bit `i`
/// being bit `i % 8` of byte `i / 8`.
pub fn read_fixed_bitset(r: &mut ByteReader, size: usize) -> (res: Result<Vec<bool>, ParsingError>)
    requires
        old(r).wf(),
    ensures
        final(r).wf(),
        if fixed_bitset_len(size as nat) <= old(r)@.len() {
            let bytes = old(r)@.take(fixed_bitset_len(size as nat) as int);
            res matches Ok(bits) && bits@.len() == size
                && (forall|i: int| 0 <= i < size ==> bits@[i] == byte_bit(bytes, i))
                && final(r)@ == old(r)@.skip(fixed_bitset_len(size as nat) as int)
        } else {
            res matches Err(ParsingError::UnexpectedEof) && final(r)@ == old(r)@
        },
{
    let nbytes: usize = size / 8 + if size % 8 != 0 { 1 } else { 0 };
    assert(nbytes == fixed_bitset_len(size as nat));
    let bytes = match r.take(nbytes) {
        Some(b) => b,
        None => {
            return Err(ParsingError::UnexpectedEof);
        },
    };
    let mut bits: Vec<bool> = Vec::new();
    let mut i: usize = 0;
    while i < size
        invariant
            i <= size,
            bytes@.len() == nbytes,
            nbytes == fixed_bitset_len(size as nat),
            bits@.len() == i,
            forall|j: int| 0 <= j < i ==> bits@[j] == byte_bit(bytes@, j),
        decreases size - i,
    {
        bits.push((bytes[i / 8] >> ((i % 8) as u8)) & 1 == 1);
        i = i + 1;
    }
    Ok(bits)
}

/// The teleport is relative on the x axis.
pub const RELATIVE_X: u32 = 0x01;
/// The teleport is relative on the y axis.
pub const RELATIVE_Y: u32 = 0x02;
/// The teleport is relative on the z axis.
pub const RELATIVE_Z: u32 = 0x04;
/// The yaw is relative.
pub const RELATIVE_YAW: u32 = 0x08;
/// The pitch is relative.
pub const RELATIVE_PITCH: u32 = 0x10;
/// The velocity along x is relative.
pub const RELATIVE_VELOCITY_X: u32 = 0x20;
/// The velocity along y is relative.
pub const RELATIVE_VELOCITY_Y: u32 = 0x40;
/// The velocity along z is relative.
pub const RELATIVE_VELOCITY_Z: u32 = 0x80;
/// The velocity is rotated by the change in rotation.
pub const ROTATE_VELOCITY_BASED_ON_DELTA_ROTATION: u32 = 0x100;

/// Bit field saying, per axis and rotation component, whether a teleport is
/// relative (bit set) or absolute (bit clear). Bits without a name are kept.
#[derive(Clone, Copy, Debug, PartialEq, Eq, Structural)]
pub struct TeleportFlags {
    pub bits: u32,
}

impl TeleportFlags {
    /// The flags with exactly these bits, named or not.
    pub fn from_bits_retain(bits: u32) -> (f: TeleportFlags)
        ensures
            f.bits == bits,
    {
        TeleportFlags { bits }
    }

    /// The raw bits.
    pub fn bits(&self) -> (b: u32)
        ensures
            b == self.bits,
    {
        self.bits
    }

    /// Whether every bit of `flag` is set.
    pub fn contains(&self, flag: u32) -> (c: bool)
        ensures
            c == (self.bits & flag == flag),
    {
        self.bits & flag == flag
    }
}

/// Reads teleport flags: a big-endian 32-bit integer whose bits are taken as
/// they are, unknown bits included.
pub fn read_teleport_flags(r: &mut ByteReader) -> (res: Result<TeleportFlags, ParsingError>)
    requires
        old(r).wf(),
    ensures
        final(r).wf(),
        if old(r)@.len() >= 4 {
            res matches Ok(f) && f.bits == be_value(old(r)@.take(4)) && final(r)@ == old(r)@.skip(4)
        } else {
            res matches Err(ParsingError::UnexpectedEof) && final(r)@ == old(r)@
        },
{
    proof {
        lemma2_to64();
    }
    match read_be(r, 4) {
        Ok(v) => Ok(TeleportFlags::from_bits_retain(v as u32)),
        Err(e) => Err(e),
    }
}

} // verus!
