//! Byte-level value readers and writers.
//!
//! `ValueReaderBlob` is a positioned cursor over an in-memory byte sequence
//! with endian-parameterized integer reads and unsigned LEB128 varints;
//! `ValueWriterBlob` is the matching append-only sink.  The spec functions
//! here define the wire encodings once; both the cursors and the archive
//! engine are proved against them.

use vstd::prelude::*;
use vstd::arithmetic::power2::{pow2, lemma_pow2_adds, lemma_pow2_pos, lemma2_to64};
use crate::error::{Error, corrupt_error};
use crate::types::Blob;

verus! {

/// Byte order of multi-byte integer encodings.
#[derive(Debug, Clone, Copy, PartialEq, Eq, Structural)]
pub enum Endian {
    Little,
    Big,
}

/// The value of a big-endian byte sequence: the first byte is the most
/// significant.
pub open spec fn be_to_nat(b: Seq<u8>) -> nat
    decreases b.len(),
{
    if b.len() == 0 {
        0
    } else {
        be_to_nat(b.drop_last()) * 256 + (b.last() as nat)
    }
}

/// The value of a little-endian byte sequence: the first byte is the least
/// significant.
pub open spec fn le_to_nat(b: Seq<u8>) -> nat
    decreases b.len(),
{
    if b.len() == 0 {
        0
    } else {
        (b.first() as nat) + le_to_nat(b.drop_first()) * 256
    }
}

/// The `n`-byte big-endian encoding of `v % 256^n`.
pub open spec fn nat_to_be(v: nat, n: nat) -> Seq<u8>
    decreases n,
{
    if n == 0 {
        Seq::empty()
    } else {
        nat_to_be(v / 256, (n - 1) as nat).push((v % 256) as u8)
    }
}

/// The `n`-byte little-endian encoding of `v % 256^n`.
pub open spec fn nat_to_le(v: nat, n: nat) -> Seq<u8>
    decreases n,
{
    if n == 0 {
        Seq::empty()
    } else {
        seq![(v % 256) as u8] + nat_to_le(v / 256, (n - 1) as nat)
    }
}

/// The value of a byte sequence in the given byte order.
pub open spec fn uint_from_bytes(e: Endian, b: Seq<u8>) -> nat {
    match e {
        Endian::Big => be_to_nat(b),
        Endian::Little => le_to_nat(b),
    }
}

/// The `n`-byte encoding of `v` in the given byte order.
pub open spec fn uint_to_bytes(e: Endian, v: nat, n: nat) -> Seq<u8> {
    match e {
        Endian::Big => nat_to_be(v, n),
        Endian::Little => nat_to_le(v, n),
    }
}

/// Monotonicity of `pow2`.
pub proof fn lemma_pow2_le(e1: nat, e2: nat)
    requires
        e1 <= e2,
    ensures
        pow2(e1) <= pow2(e2),
{
    if e1 < e2 {
        vstd::arithmetic::power2::lemma_pow2_strictly_increases(e1, e2);
    }
}

/// A big-endian value is bounded by `2^(8 len)`.
pub proof fn lemma_be_to_nat_bound(b: Seq<u8>)
    ensures
        be_to_nat(b) < pow2(8 * b.len()),
    decreases b.len(),
{
    if b.len() == 0 {
        lemma2_to64();
    } else {
        lemma_be_to_nat_bound(b.drop_last());
        lemma_pow2_adds(8 * (b.len() - 1) as nat, 8);
        lemma2_to64();
        assert(pow2(8) == 256);
    }
}

/// A little-endian value is bounded by `2^(8 len)`.
pub proof fn lemma_le_to_nat_bound(b: Seq<u8>)
    ensures
        le_to_nat(b) < pow2(8 * b.len()),
    decreases b.len(),
{
    if b.len() == 0 {
        lemma2_to64();
    } else {
        lemma_le_to_nat_bound(b.drop_first());
        lemma_pow2_adds(8 * (b.len() - 1) as nat, 8);
        lemma2_to64();
        assert(pow2(8) == 256);
    }
}

/// The encoding has exactly `n` bytes.
pub proof fn lemma_uint_to_bytes_len(e: Endian, v: nat, n: nat)
    ensures
        uint_to_bytes(e, v, n).len() == n,
    decreases n,
{
    if n > 0 {
        lemma_uint_to_bytes_len(e, v / 256, (n - 1) as nat);
    }
}

/// Encoding then decoding an `n`-byte value gives the value back.
pub proof fn lemma_uint_bytes_round_trip(e: Endian, v: nat, n: nat)
    requires
        v < pow2(8 * n),
    ensures
        uint_from_bytes(e, uint_to_bytes(e, v, n)) == v,
    decreases n,
{
    if n == 0 {
        lemma2_to64();
    } else {
        lemma_pow2_adds(8 * (n - 1) as nat, 8);
        lemma2_to64();
        assert(pow2(8) == 256);
        lemma_uint_bytes_round_trip(e, v / 256, (n - 1) as nat);
        match e {
            Endian::Big => {
                let b = nat_to_be(v, n);
                assert(b.drop_last() =~= nat_to_be(v / 256, (n - 1) as nat));
            },
            Endian::Little => {
                let b = nat_to_le(v, n);
                assert(b.drop_first() =~= nat_to_le(v / 256, (n - 1) as nat));
            },
        }
    }
}

/// Reads the `n`-byte big-endian value at `data[start ..]`.
pub fn uint_from_slice_be(data: &Vec<u8>, start: usize, n: usize) -> (r: u64)
    requires
        start + n <= data@.len(),
        n <= 8,
    ensures
        r == be_to_nat(data@.subrange(start as int, start + n)),
    decreases n,
{
    let total = data.len();
    proof {
        lemma_be_to_nat_bound(data@.subrange(start as int, start + n));
        lemma_pow2_le(8 * n as nat, 64);
        lemma2_to64();
        assert(start + n <= total);
    }
    if n == 0 {
        0
    } else {
        let hi = uint_from_slice_be(data, start, n - 1);
        proof {
            lemma_be_to_nat_bound(data@.subrange(start as int, start + n - 1));
            lemma_pow2_adds(8 * (n - 1) as nat, 8);
            assert(pow2(8) == 256);
            assert(data@.subrange(start as int, start + n).drop_last() =~= data@.subrange(
                start as int,
                start + n - 1,
            ));
        }
        hi * 256 + (data[start + n - 1] as u64)
    }
}

/// Reads the `n`-byte little-endian value at `data[start ..]`.
pub fn uint_from_slice_le(data: &Vec<u8>, start: usize, n: usize) -> (r: u64)
    requires
        start + n <= data@.len(),
        n <= 8,
    ensures
        r == le_to_nat(data@.subrange(start as int, start + n)),
    decreases n,
{
    let total = data.len();
    proof {
        assert(start + n <= total);
    }
    if n == 0 {
        0
    } else {
        let lo: u64 = data[start] as u64;
        let hi = uint_from_slice_le(data, start + 1, n - 1);
        proof {
            lemma_le_to_nat_bound(data@.subrange(start + 1, start + n));
            lemma_pow2_le(8 * (n - 1) as nat, 56);
            lemma_pow2_adds(56, 8);
            lemma2_to64();
            assert(pow2(8) == 256 && pow2(56) * 256 == pow2(64));
            assert(data@.subrange(start as int, start + n).drop_first() =~= data@.subrange(
                start + 1,
                start + n,
            ));
        }
        lo + hi * 256
    }
}

/// Reads the `n`-byte value at `data[start ..]` in the given byte order.
pub fn uint_from_slice(e: Endian, data: &Vec<u8>, start: usize, n: usize) -> (r: u64)
    requires
        start + n <= data@.len(),
        n <= 8,
    ensures
        r == uint_from_bytes(e, data@.subrange(start as int, start + n)),
{
    match e {
        Endian::Big => uint_from_slice_be(data, start, n),
        Endian::Little => uint_from_slice_le(data, start, n),
    }
}

/// Appends the `n`-byte big-endian encoding of `v`.
pub fn push_uint_be(out: &mut Vec<u8>, v: u64, n: usize)
    requires
        n <= 8,
    ensures
        final(out)@ == old(out)@ + nat_to_be(v as nat, n as nat),
    decreases n,
{
    if n == 0 {
        proof {
            assert(final(out)@ =~= old(out)@ + nat_to_be(v as nat, 0));
        }
    } else {
        push_uint_be(out, v / 256, n - 1);
        out.push((v % 256) as u8);
        proof {
            assert(final(out)@ =~= old(out)@ + nat_to_be(v as nat, n as nat));
        }
    }
}

/// Appends the `n`-byte little-endian encoding of `v`.
pub fn push_uint_le(out: &mut Vec<u8>, v: u64, n: usize)
    requires
        n <= 8,
    ensures
        final(out)@ == old(out)@ + nat_to_le(v as nat, n as nat),
    decreases n,
{
    if n == 0 {
        proof {
            assert(final(out)@ =~= old(out)@ + nat_to_le(v as nat, 0));
        }
    } else {
        out.push((v % 256) as u8);
        push_uint_le(out, v / 256, n - 1);
        proof {
            assert(final(out)@ =~= old(out)@ + nat_to_le(v as nat, n as nat));
        }
    }
}

/// Appends the `n`-byte encoding of `v` in the given byte order.
pub fn push_uint(e: Endian, out: &mut Vec<u8>, v: u64, n: usize)
    requires
        n <= 8,
    ensures
        final(out)@ == old(out)@ + uint_to_bytes(e, v as nat, n as nat),
{
    match e {
        Endian::Big => push_uint_be(out, v, n),
        Endian::Little => push_uint_le(out, v, n),
    }
}

/// Decodes an unsigned LEB128 varint from the head of `b`, reading at most
/// `cap` bytes: the decoded value and the number of bytes consumed, or
/// nothing when the bytes run out or every byte read carried the
/// continuation bit.
pub open spec fn spec_varint_decode(b: Seq<u8>, cap: nat) -> Option<(nat, nat)>
    decreases cap,
{
    if b.len() == 0 || cap == 0 {
        None
    } else if b.first() < 128 {
        Some((b.first() as nat, 1))
    } else {
        match spec_varint_decode(b.drop_first(), (cap - 1) as nat) {
            Some(p) => Some((((b.first() - 128) + p.0 * 128) as nat, p.1 + 1)),
            None => None,
        }
    }
}

/// The unsigned LEB128 encoding of `v`: groups of seven bits, least
/// significant first, the continuation bit on every byte but the last.
pub open spec fn spec_varint_encode(v: nat) -> Seq<u8>
    decreases v,
{
    if v < 128 {
        seq![v as u8]
    } else {
        seq![(128 + (v % 128)) as u8] + spec_varint_encode(v / 128)
    }
}

/// A decoded varint read through `cap` bytes stays below `2^(7 cap)`, and
/// consumes between one and `cap` bytes.
pub proof fn lemma_varint_decode_bound(b: Seq<u8>, cap: nat)
    requires
        spec_varint_decode(b, cap) is Some,
    ensures
        spec_varint_decode(b, cap)->Some_0.0 < pow2(7 * cap),
        1 <= spec_varint_decode(b, cap)->Some_0.1 <= cap,
        spec_varint_decode(b, cap)->Some_0.1 <= b.len(),
    decreases cap,
{
    lemma_pow2_pos(7 * cap);
    if b.first() < 128 {
        lemma_pow2_le(7, 7 * cap);
        lemma2_to64();
    } else {
        lemma_varint_decode_bound(b.drop_first(), (cap - 1) as nat);
        lemma_pow2_adds(7 * (cap - 1) as nat, 7);
        lemma2_to64();
        assert(pow2(7) == 128);
    }
}

/// The varint encoding of a value below `2^63` takes at most nine bytes.
pub proof fn lemma_varint_encode_len(v: nat, k: nat)
    requires
        v < pow2(7 * k),
        k >= 1,
    ensures
        1 <= spec_varint_encode(v).len() <= k,
    decreases k,
{
    if v < 128 {
    } else {
        lemma_pow2_adds(7 * (k - 1) as nat, 7);
        lemma2_to64();
        assert(pow2(7) == 128);
        if k == 1 {
            lemma2_to64();
            assert(false);
        }
        lemma_varint_encode_len(v / 128, (k - 1) as nat);
    }
}

/// Varint round trip: decoding the encoding of any value below `2^63`
/// gives the value back and consumes exactly the encoding, whatever bytes
/// follow it.
pub proof fn lemma_varint_round_trip(v: nat, rest: Seq<u8>)
    requires
        v < pow2(63),
    ensures
        spec_varint_decode(spec_varint_encode(v) + rest, 9) == Some(
            (v, spec_varint_encode(v).len()),
        ),
{
    lemma_varint_round_trip_rec(v, rest, 9);
}

proof fn lemma_varint_round_trip_rec(v: nat, rest: Seq<u8>, cap: nat)
    requires
        v < pow2(7 * cap),
        cap >= 1,
    ensures
        spec_varint_decode(spec_varint_encode(v) + rest, cap) == Some(
            (v, spec_varint_encode(v).len()),
        ),
    decreases cap,
{
    let b = spec_varint_encode(v) + rest;
    if v < 128 {
        assert(b.first() == v as u8);
    } else {
        lemma_pow2_adds(7 * (cap - 1) as nat, 7);
        lemma2_to64();
        assert(pow2(7) == 128);
        if cap == 1 {
            assert(false);
        }
        lemma_varint_round_trip_rec(v / 128, rest, (cap - 1) as nat);
        assert(b.drop_first() =~= spec_varint_encode(v / 128) + rest);
        vstd::arithmetic::div_mod::lemma_fundamental_div_mod(v as int, 128);
    }
}

/// Decoding fails on any input whose first `cap` bytes all carry the
/// continuation bit: nine continuation bytes exhaust the reader's budget.
pub proof fn lemma_varint_all_continuation_fails(b: Seq<u8>, cap: nat)
    requires
        forall|i: int| 0 <= i < cap && i < b.len() ==> b[i] >= 128,
    ensures
        spec_varint_decode(b, cap) is None,
    decreases cap,
{
    if b.len() == 0 || cap == 0 {
    } else {
        assert(b[0] >= 128);
        assert(forall|i: int|
            0 <= i < cap - 1 && i < b.drop_first().len() ==> b.drop_first()[i] >= 128);
        lemma_varint_all_continuation_fails(b.drop_first(), (cap - 1) as nat);
    }
}

/// Decodes the varint at `data[pos ..]` with a byte budget of `cap`.
fn varint_from_slice(data: &Vec<u8>, pos: usize, cap: usize) -> (r: Result<(u64, usize), Error>)
    requires
        pos <= data@.len(),
        cap <= 9,
    ensures
        match spec_varint_decode(data@.skip(pos as int), cap as nat) {
            Some(p) => r is Ok && r->Ok_0.0 == p.0 && r->Ok_0.1 == p.1,
            None => r is Err && r->Err_0 is Corrupt,
        },
    decreases cap,
{
    if pos == data.len() || cap == 0 {
        return Err(corrupt_error("varint is truncated or too long"));
    }
    let byte = data[pos];
    if byte < 128 {
        Ok((byte as u64, 1))
    } else {
        proof {
            assert(data@.skip(pos as int).drop_first() =~= data@.skip(pos + 1));
        }
        match varint_from_slice(data, pos + 1, cap - 1) {
            Ok((v, n)) => {
                proof {
                    lemma_varint_decode_bound(data@.skip(pos + 1), (cap - 1) as nat);
                    lemma_pow2_le(7 * (cap - 1) as nat, 56);
                    lemma_pow2_adds(56, 7);
                    lemma2_to64();
                    vstd::arithmetic::power2::lemma2_to64_rest();
                    assert(pow2(56) == 0x100_0000_0000_0000);
                    assert(v < 0x100_0000_0000_0000);
                    assert(n <= 9);
                }
                Ok(((byte - 128) as u64 + v * 128, n + 1))
            },
            Err(e) => Err(e),
        }
    }
}

/// Appends the varint encoding of `v`.
pub fn push_varint(out: &mut Vec<u8>, v: u64)
    ensures
        final(out)@ == old(out)@ + spec_varint_encode(v as nat),
    decreases v,
{
    if v < 128 {
        out.push(v as u8);
        proof {
            assert(final(out)@ =~= old(out)@ + spec_varint_encode(v as nat));
        }
    } else {
        out.push((128 + (v % 128)) as u8);
        push_varint(out, v / 128);
        proof {
            assert(final(out)@ =~= old(out)@ + spec_varint_encode(v as nat));
        }
    }
}

/// A positioned cursor over an owned byte sequence.
#[derive(Debug)]
pub struct ValueReaderBlob {
    data: Vec<u8>,
    pos: u64,
    endian: Endian,
}

impl ValueReaderBlob {
    /// The bytes the cursor walks.
    pub closed spec fn spec_data(&self) -> Seq<u8> {
        self.data@
    }

    /// The current position.
    pub closed spec fn spec_pos(&self) -> int {
        self.pos as int
    }

    /// The byte order of multi-byte reads.
    pub closed spec fn spec_endian(&self) -> Endian {
        self.endian
    }

    /// The position never passes the end of the data.
    pub closed spec fn wf(&self) -> bool {
        self.pos <= self.data@.len()
    }

    /// The bytes from the current position to the end.
    pub open spec fn spec_remaining(&self) -> Seq<u8> {
        self.spec_data().skip(self.spec_pos())
    }

    /// A cursor at position zero over the blob's bytes.
    pub fn new(blob: Blob, endian: Endian) -> (r: ValueReaderBlob)
        ensures
            r.wf(),
            r.spec_data() == blob@,
            r.spec_pos() == 0,
            r.spec_endian() == endian,
    {
        ValueReaderBlob { data: blob.into_vec(), pos: 0, endian }
    }

    /// A little-endian cursor over the blob's bytes.
    pub fn new_le(blob: Blob) -> (r: ValueReaderBlob)
        ensures
            r.wf(),
            r.spec_data() == blob@,
            r.spec_pos() == 0,
            r.spec_endian() == Endian::Little,
    {
        ValueReaderBlob::new(blob, Endian::Little)
    }

    /// A big-endian cursor over the blob's bytes.
    pub fn new_be(blob: Blob) -> (r: ValueReaderBlob)
        ensures
            r.wf(),
            r.spec_data() == blob@,
            r.spec_pos() == 0,
            r.spec_endian() == Endian::Big,
    {
        ValueReaderBlob::new(blob, Endian::Big)
    }

    /// Total length of the underlying bytes.
    pub fn len(&self) -> (r: u64)
        ensures
            r == self.spec_data().len(),
    {
        self.data.len() as u64
    }

    /// The current position.
    pub fn position(&self) -> (r: u64)
        ensures
            r == self.spec_pos(),
    {
        self.pos
    }

    /// Moves the cursor; a position at or past the end is `Corrupt`.
    pub fn set_position(&mut self, position: u64) -> (r: Result<(), Error>)
        requires
            old(self).wf(),
        ensures
            final(self).wf(),
            final(self).spec_data() == old(self).spec_data(),
            final(self).spec_endian() == old(self).spec_endian(),
            match r {
                Ok(()) => position < old(self).spec_data().len() && final(self).spec_pos()
                    == position,
                Err(e) => e is Corrupt && position >= old(self).spec_data().len()
                    && final(self).spec_pos() == old(self).spec_pos(),
            },
    {
        if position >= self.data.len() as u64 {
            return Err(corrupt_error("set position outside length"));
        }
        self.pos = position;
        Ok(())
    }

    /// Reads `n` bytes (at most eight) as one unsigned integer in the
    /// cursor's byte order; running out of bytes is `Corrupt`.
    fn read_uint(&mut self, n: usize) -> (r: Result<u64, Error>)
        requires
            old(self).wf(),
            n <= 8,
        ensures
            final(self).wf(),
            final(self).spec_data() == old(self).spec_data(),
            final(self).spec_endian() == old(self).spec_endian(),
            match r {
                Ok(v) => {
                    &&& old(self).spec_remaining().len() >= n
                    &&& v == uint_from_bytes(
                        old(self).spec_endian(),
                        old(self).spec_remaining().take(n as int),
                    )
                    &&& final(self).spec_pos() == old(self).spec_pos() + n
                },
                Err(e) => {
                    &&& e is Corrupt
                    &&& old(self).spec_remaining().len() < n
                    &&& final(self).spec_pos() == old(self).spec_pos()
                },
            },
    {
        let len = self.data.len();
        proof {
            assert(self.pos <= len as u64);
        }
        let start = self.pos as usize;
        if n > len - start {
            return Err(corrupt_error("read past the end of the data"));
        }
        let v = uint_from_slice(self.endian, &self.data, start, n);
        self.pos = self.pos + n as u64;
        proof {
            assert(old(self).spec_remaining().take(n as int) =~= old(self).spec_data().subrange(
                old(self).spec_pos(),
                old(self).spec_pos() + n,
            ));
        }
        Ok(v)
    }

    /// Reads one byte.
    pub fn read_u8(&mut self) -> (r: Result<u8, Error>)
        requires
            old(self).wf(),
        ensures
            final(self).wf(),
            final(self).spec_data() == old(self).spec_data(),
            final(self).spec_endian() == old(self).spec_endian(),
            match r {
                Ok(v) => {
                    &&& old(self).spec_remaining().len() >= 1
                    &&& v == old(self).spec_remaining().first()
                    &&& final(self).spec_pos() == old(self).spec_pos() + 1
                },
                Err(e) => {
                    &&& e is Corrupt
                    &&& old(self).spec_remaining().len() == 0
                    &&& final(self).spec_pos() == old(self).spec_pos()
                },
            },
    {
        match self.read_uint(1) {
            Ok(v) => {
                proof {
                    let b = old(self).spec_remaining().take(1);
                    assert(b.drop_last() =~= Seq::<u8>::empty());
                    assert(b.drop_first() =~= Seq::<u8>::empty());
                    assert(b.last() == old(self).spec_remaining().first());
                    assert(b.first() == old(self).spec_remaining().first());
                    lemma_uint_from_take_bound(
                        old(self).spec_endian(),
                        old(self).spec_remaining(),
                        1,
                    );
                    lemma2_to64();
                }
                Ok(v as u8)
            },
            Err(e) => Err(e),
        }
    }

    /// Reads a 16-bit unsigned integer.
    pub fn read_u16(&mut self) -> (r: Result<u16, Error>)
        requires
            old(self).wf(),
        ensures
            final(self).wf(),
            final(self).spec_data() == old(self).spec_data(),
            final(self).spec_endian() == old(self).spec_endian(),
            match r {
                Ok(v) => {
                    &&& old(self).spec_remaining().len() >= 2
                    &&& v == uint_from_bytes(
                        old(self).spec_endian(),
                        old(self).spec_remaining().take(2),
                    )
                    &&& final(self).spec_pos() == old(self).spec_pos() + 2
                },
                Err(e) => {
                    &&& e is Corrupt
                    &&& old(self).spec_remaining().len() < 2
                    &&& final(self).spec_pos() == old(self).spec_pos()
                },
            },
    {
        match self.read_uint(2) {
            Ok(v) => {
                proof {
                    lemma_uint_from_take_bound(
                        old(self).spec_endian(),
                        old(self).spec_remaining(),
                        2,
                    );
                    lemma2_to64();
                }
                Ok(v as u16)
            },
            Err(e) => Err(e),
        }
    }

    /// Reads a 32-bit unsigned integer.
    pub fn read_u32(&mut self) -> (r: Result<u32, Error>)
        requires
            old(self).wf(),
        ensures
            final(self).wf(),
            final(self).spec_data() == old(self).spec_data(),
            final(self).spec_endian() == old(self).spec_endian(),
            match r {
                Ok(v) => {
                    &&& old(self).spec_remaining().len() >= 4
                    &&& v == uint_from_bytes(
                        old(self).spec_endian(),
                        old(self).spec_remaining().take(4),
                    )
                    &&& final(self).spec_pos() == old(self).spec_pos() + 4
                },
                Err(e) => {
                    &&& e is Corrupt
                    &&& old(self).spec_remaining().len() < 4
                    &&& final(self).spec_pos() == old(self).spec_pos()
                },
            },
    {
        match self.read_uint(4) {
            Ok(v) => {
                proof {
                    lemma_uint_from_take_bound(
                        old(self).spec_endian(),
                        old(self).spec_remaining(),
                        4,
                    );
                    lemma2_to64();
                }
                Ok(v as u32)
            },
            Err(e) => Err(e),
        }
    }

    /// Reads a 64-bit unsigned integer.
    pub fn read_u64(&mut self) -> (r: Result<u64, Error>)
        requires
            old(self).wf(),
        ensures
            final(self).wf(),
            final(self).spec_data() == old(self).spec_data(),
            final(self).spec_endian() == old(self).spec_endian(),
            match r {
                Ok(v) => {
                    &&& old(self).spec_remaining().len() >= 8
                    &&& v == uint_from_bytes(
                        old(self).spec_endian(),
                        old(self).spec_remaining().take(8),
                    )
                    &&& final(self).spec_pos() == old(self).spec_pos() + 8
                },
                Err(e) => {
                    &&& e is Corrupt
                    &&& old(self).spec_remaining().len() < 8
                    &&& final(self).spec_pos() == old(self).spec_pos()
                },
            },
    {
        self.read_uint(8)
    }

    /// Reads a 32-bit signed integer, two's complement.
    pub fn read_i32(&mut self) -> (r: Result<i32, Error>)
        requires
            old(self).wf(),
        ensures
            final(self).wf(),
            final(self).spec_data() == old(self).spec_data(),
            final(self).spec_endian() == old(self).spec_endian(),
            match r {
                Ok(v) => {
                    &&& old(self).spec_remaining().len() >= 4
                    &&& v == spec_i32_of_uint(
                        uint_from_bytes(old(self).spec_endian(), old(self).spec_remaining().take(4)),
                    )
                    &&& final(self).spec_pos() == old(self).spec_pos() + 4
                },
                Err(e) => {
                    &&& e is Corrupt
                    &&& old(self).spec_remaining().len() < 4
                    &&& final(self).spec_pos() == old(self).spec_pos()
                },
            },
    {
        match self.read_u32() {
            Ok(v) => {
                if v < 0x8000_0000 {
                    Ok(v as i32)
                } else {
                    Ok(((v as i64) - 0x1_0000_0000i64) as i32)
                }
            },
            Err(e) => Err(e),
        }
    }

    /// Reads an unsigned LEB128 varint; a truncated or over-long varint is
    /// `Corrupt` and leaves the position unchanged.
    pub fn read_varint(&mut self) -> (r: Result<u64, Error>)
        requires
            old(self).wf(),
        ensures
            final(self).wf(),
            final(self).spec_data() == old(self).spec_data(),
            final(self).spec_endian() == old(self).spec_endian(),
            match r {
                Ok(v) => {
                    &&& spec_varint_decode(old(self).spec_remaining(), 9) is Some
                    &&& v == spec_varint_decode(old(self).spec_remaining(), 9)->Some_0.0
                    &&& final(self).spec_pos() == old(self).spec_pos() + spec_varint_decode(
                        old(self).spec_remaining(),
                        9,
                    )->Some_0.1
                },
                Err(e) => {
                    &&& e is Corrupt
                    &&& spec_varint_decode(old(self).spec_remaining(), 9) is None
                    &&& final(self).spec_pos() == old(self).spec_pos()
                },
            },
    {
        let len = self.data.len();
        proof {
            assert(self.pos <= len as u64);
        }
        let start = self.pos as usize;
        match varint_from_slice(&self.data, start, 9) {
            Ok((v, n)) => {
                proof {
                    lemma_varint_decode_bound(old(self).spec_remaining(), 9);
                }
                self.pos = self.pos + n as u64;
                Ok(v)
            },
            Err(e) => Err(e),
        }
    }

    /// Reads the next `length` bytes as an owned blob.
    pub fn read_blob(&mut self, length: u64) -> (r: Result<Blob, Error>)
        requires
            old(self).wf(),
        ensures
            final(self).wf(),
            final(self).spec_data() == old(self).spec_data(),
            final(self).spec_endian() == old(self).spec_endian(),
            match r {
                Ok(b) => {
                    &&& old(self).spec_remaining().len() >= length
                    &&& b@ == old(self).spec_remaining().take(length as int)
                    &&& final(self).spec_pos() == old(self).spec_pos() + length
                },
                Err(e) => {
                    &&& e is Corrupt
                    &&& old(self).spec_remaining().len() < length
                    &&& final(self).spec_pos() == old(self).spec_pos()
                },
            },
    {
        let len = self.data.len();
        proof {
            assert(self.pos <= len as u64);
        }
        let start = self.pos as usize;
        if length > (len - start) as u64 {
            return Err(corrupt_error("read past the end of the data"));
        }
        let n = length as usize;
        let mut out: Vec<u8> = Vec::new();
        let mut i: usize = 0;
        while i < n
            invariant
                len == self.data@.len(),
                start + n <= len,
                i <= n,
                out@ == self.data@.subrange(start as int, start + i),
            decreases n - i,
        {
            out.push(self.data[start + i]);
            proof {
                assert(out@ =~= self.data@.subrange(start as int, start + i + 1));
            }
            i = i + 1;
        }
        self.pos = self.pos + length;
        proof {
            assert(old(self).spec_remaining().take(length as int) =~= old(
                self,
            ).spec_data().subrange(old(self).spec_pos(), old(self).spec_pos() + length));
        }
        Ok(Blob::from_vec(out))
    }

    /// Splits off an independent cursor over the next `length` bytes and
    /// advances this cursor past them.
    pub fn get_sub_reader(&mut self, length: u64) -> (r: Result<ValueReaderBlob, Error>)
        requires
            old(self).wf(),
        ensures
            final(self).wf(),
            final(self).spec_data() == old(self).spec_data(),
            final(self).spec_endian() == old(self).spec_endian(),
            match r {
                Ok(sub) => {
                    &&& old(self).spec_remaining().len() >= length
                    &&& sub.wf()
                    &&& sub.spec_data() == old(self).spec_remaining().take(length as int)
                    &&& sub.spec_pos() == 0
                    &&& sub.spec_endian() == old(self).spec_endian()
                    &&& final(self).spec_pos() == old(self).spec_pos() + length
                },
                Err(e) => {
                    &&& e is Corrupt
                    &&& old(self).spec_remaining().len() < length
                    &&& final(self).spec_pos() == old(self).spec_pos()
                },
            },
    {
        let endian = self.endian;
        match self.read_blob(length) {
            Ok(b) => Ok(ValueReaderBlob::new(b, endian)),
            Err(e) => Err(e),
        }
    }
}

/// The signed reading of an unsigned 32-bit value, two's complement.
pub open spec fn spec_i32_of_uint(v: nat) -> i32 {
    if v < 0x8000_0000 {
        v as i32
    } else {
        (v - 0x1_0000_0000) as i32
    }
}

/// A value read from at most `k` bytes stays below `2^(8 k)`.
proof fn lemma_uint_from_take_bound(e: Endian, b: Seq<u8>, k: nat)
    requires
        k <= b.len(),
    ensures
        uint_from_bytes(e, b.take(k as int)) < pow2(8 * k),
{
    match e {
        Endian::Big => lemma_be_to_nat_bound(b.take(k as int)),
        Endian::Little => lemma_le_to_nat_bound(b.take(k as int)),
    }
}

/// An append-only byte sink with endian-parameterized integer writes.
#[derive(Debug)]
pub struct ValueWriterBlob {
    data: Vec<u8>,
    endian: Endian,
}

impl ValueWriterBlob {
    /// The bytes written so far.
    pub closed spec fn spec_data(&self) -> Seq<u8> {
        self.data@
    }

    /// The byte order of multi-byte writes.
    pub closed spec fn spec_endian(&self) -> Endian {
        self.endian
    }

    /// An empty sink.
    pub fn new(endian: Endian) -> (r: ValueWriterBlob)
        ensures
            r.spec_data() == Seq::<u8>::empty(),
            r.spec_endian() == endian,
    {
        ValueWriterBlob { data: Vec::new(), endian }
    }

    /// An empty little-endian sink.
    pub fn new_le() -> (r: ValueWriterBlob)
        ensures
            r.spec_data() == Seq::<u8>::empty(),
            r.spec_endian() == Endian::Little,
    {
        ValueWriterBlob::new(Endian::Little)
    }

    /// An empty big-endian sink.
    pub fn new_be() -> (r: ValueWriterBlob)
        ensures
            r.spec_data() == Seq::<u8>::empty(),
            r.spec_endian() == Endian::Big,
    {
        ValueWriterBlob::new(Endian::Big)
    }

    /// Bytes written so far, which is where the next write lands.
    pub fn position(&self) -> (r: u64)
        ensures
            r == self.spec_data().len(),
    {
        self.data.len() as u64
    }

    /// Appends one byte.
    pub fn write_u8(&mut self, v: u8)
        ensures
            final(self).spec_data() == old(self).spec_data().push(v),
            final(self).spec_endian() == old(self).spec_endian(),
    {
        self.data.push(v);
    }

    /// Appends a 16-bit unsigned integer.
    pub fn write_u16(&mut self, v: u16)
        ensures
            final(self).spec_data() == old(self).spec_data() + uint_to_bytes(
                old(self).spec_endian(),
                v as nat,
                2,
            ),
            final(self).spec_endian() == old(self).spec_endian(),
    {
        push_uint(self.endian, &mut self.data, v as u64, 2);
    }

    /// Appends a 32-bit unsigned integer.
    pub fn write_u32(&mut self, v: u32)
        ensures
            final(self).spec_data() == old(self).spec_data() + uint_to_bytes(
                old(self).spec_endian(),
                v as nat,
                4,
            ),
            final(self).spec_endian() == old(self).spec_endian(),
    {
        push_uint(self.endian, &mut self.data, v as u64, 4);
    }

    /// Appends a 64-bit unsigned integer.
    pub fn write_u64(&mut self, v: u64)
        ensures
            final(self).spec_data() == old(self).spec_data() + uint_to_bytes(
                old(self).spec_endian(),
                v as nat,
                8,
            ),
            final(self).spec_endian() == old(self).spec_endian(),
    {
        push_uint(self.endian, &mut self.data, v, 8);
    }

    /// Appends an unsigned LEB128 varint.
    pub fn write_varint(&mut self, v: u64)
        ensures
            final(self).spec_data() == old(self).spec_data() + spec_varint_encode(v as nat),
            final(self).spec_endian() == old(self).spec_endian(),
    {
        push_varint(&mut self.data, v);
    }

    /// Appends every byte of the blob.
    pub fn write_blob(&mut self, b: &Blob)
        ensures
            final(self).spec_data() == old(self).spec_data() + b@,
            final(self).spec_endian() == old(self).spec_endian(),
    {
        let n = b.as_slice().len();
        let mut i: usize = 0;
        while i < n
            invariant
                n == b@.len(),
                i <= n,
                self.data@ == old(self).spec_data() + b@.take(i as int),
                self.endian == old(self).spec_endian(),
            decreases n - i,
        {
            self.data.push(b.get(i));
            proof {
                assert(self.data@ =~= old(self).spec_data() + b@.take(i + 1));
            }
            i = i + 1;
        }
        proof {
            assert(old(self).spec_data() + b@.take(n as int) =~= old(self).spec_data() + b@);
        }
    }

    /// Closes the sink: the total length and the bytes.
    pub fn into_blob(self) -> (r: Blob)
        ensures
            r@ == self.spec_data(),
    {
        Blob::from_vec(self.data)
    }
}

} // verus!
