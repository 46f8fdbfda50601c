//! The fixed binary record protocol connecting the pipeline stages.
//!
//! A record is exactly 12 bytes: an 8-byte little-endian unsigned cell
//! identifier followed by the 4 little-endian bytes of an IEEE-754
//! single-precision value, carried here as its raw 32-bit pattern. A
//! stream is a bare concatenation of records: no header, no count. A
//! stream whose length is not a whole number of records ends in the
//! middle of a record, which is a truncation error, distinct from the
//! clean end of a stream.

use vstd::prelude::*;

verus! {

use vstd::arithmetic::div_mod::lemma_fundamental_div_mod;

/// One (cell identifier, value) pair: the unit of the binary protocol
/// and of aggregation. The value field holds the raw bit pattern of an
/// IEEE-754 single-precision number; the library never does arithmetic
/// on it.
#[derive(Clone, Copy, PartialEq, Eq, Structural, Debug)]
pub struct SpatialRecord {
    pub cell: u64,
    pub value: u32,
}

/// What can go wrong reading a record stream.
#[derive(Clone, Copy, PartialEq, Eq, Structural, Debug)]
pub enum StreamError {
    /// The stream ended in the middle of a record.
    TruncatedRecord,
    /// A decoded 64-bit word is not a valid cell identifier.
    InvalidCellId(u64),
}

/// The 8 little-endian bytes of a 64-bit word.
pub open spec fn u64_le_bytes(x: u64) -> Seq<u8> {
    seq![
        (x & 0xFF) as u8,
        ((x >> 8) & 0xFF) as u8,
        ((x >> 16) & 0xFF) as u8,
        ((x >> 24) & 0xFF) as u8,
        ((x >> 32) & 0xFF) as u8,
        ((x >> 40) & 0xFF) as u8,
        ((x >> 48) & 0xFF) as u8,
        ((x >> 56) & 0xFF) as u8,
    ]
}

/// The 4 little-endian bytes of a 32-bit word.
pub open spec fn u32_le_bytes(x: u32) -> Seq<u8> {
    seq![(x & 0xFF) as u8, ((x >> 8) & 0xFF) as u8, ((x >> 16) & 0xFF) as u8, ((x >> 24) & 0xFF) as u8]
}

/// The 12-byte encoding of one record.
pub open spec fn record_bytes(r: SpatialRecord) -> Seq<u8> {
    u64_le_bytes(r.cell) + u32_le_bytes(r.value)
}

/// The encoding of a whole stream: the records back to back.
pub open spec fn stream_bytes(s: Seq<SpatialRecord>) -> Seq<u8>
    decreases s.len(),
{
    if s.len() == 0 {
        Seq::empty()
    } else {
        record_bytes(s[0]) + stream_bytes(s.subrange(1, s.len() as int))
    }
}

/// The 64-bit word read little-endian at byte offset `off`.
pub open spec fn u64_from_le(b: Seq<u8>, off: int) -> u64 {
    (b[off] as u64) | ((b[off + 1] as u64) << 8) | ((b[off + 2] as u64) << 16) | ((b[off + 3]
        as u64) << 24) | ((b[off + 4] as u64) << 32) | ((b[off + 5] as u64) << 40) | ((b[off + 6]
        as u64) << 48) | ((b[off + 7] as u64) << 56)
}

/// The 32-bit word read little-endian at byte offset `off`.
pub open spec fn u32_from_le(b: Seq<u8>, off: int) -> u32 {
    (b[off] as u32) | ((b[off + 1] as u32) << 8) | ((b[off + 2] as u32) << 16) | ((b[off + 3]
        as u32) << 24)
}

/// The record decoded at record position `k`.
pub open spec fn record_at(b: Seq<u8>, k: int) -> SpatialRecord {
    SpatialRecord { cell: u64_from_le(b, 12 * k), value: u32_from_le(b, 12 * k + 8) }
}

/// All records of a stream whose length is a whole number of records.
pub open spec fn parse_stream(b: Seq<u8>) -> Seq<SpatialRecord> {
    Seq::new((b.len() / 12) as nat, |k: int| record_at(b, k))
}

/// Appends the 12-byte encoding of one record.
pub fn encode_record(r: SpatialRecord, out: &mut Vec<u8>)
    ensures
        final(out)@ == old(out)@ + record_bytes(r),
{
    let c = r.cell;
    out.push((c & 0xFF) as u8);
    out.push(((c >> 8) & 0xFF) as u8);
    out.push(((c >> 16) & 0xFF) as u8);
    out.push(((c >> 24) & 0xFF) as u8);
    out.push(((c >> 32) & 0xFF) as u8);
    out.push(((c >> 40) & 0xFF) as u8);
    out.push(((c >> 48) & 0xFF) as u8);
    out.push(((c >> 56) & 0xFF) as u8);
    let v = r.value;
    out.push((v & 0xFF) as u8);
    out.push(((v >> 8) & 0xFF) as u8);
    out.push(((v >> 16) & 0xFF) as u8);
    out.push(((v >> 24) & 0xFF) as u8);
    proof {
        assert(out@ =~= old(out)@ + record_bytes(r));
    }
}

/// Appending a record to a stream appends its 12 bytes.
pub proof fn lemma_stream_bytes_snoc(s: Seq<SpatialRecord>, r: SpatialRecord)
    ensures
        stream_bytes(s.push(r)) == stream_bytes(s) + record_bytes(r),
    decreases s.len(),
{
    if s.len() == 0 {
        let t = s.push(r);
        assert(t[0] == r);
        assert(t.subrange(1, 1) =~= Seq::<SpatialRecord>::empty());
        assert(stream_bytes(t) == record_bytes(r) + stream_bytes(Seq::<SpatialRecord>::empty()));
        assert(stream_bytes(t) =~= stream_bytes(s) + record_bytes(r));
    } else {
        lemma_stream_bytes_snoc(s.subrange(1, s.len() as int), r);
        assert(s.push(r).subrange(1, s.push(r).len() as int) =~= s.subrange(1, s.len() as int)
            .push(r));
        assert(stream_bytes(s.push(r)) =~= stream_bytes(s) + record_bytes(r));
    }
}

/// A stream of `n` records takes exactly `12 * n` bytes.
pub proof fn lemma_stream_bytes_len(s: Seq<SpatialRecord>)
    ensures
        stream_bytes(s).len() == 12 * s.len(),
    decreases s.len(),
{
    if s.len() > 0 {
        lemma_stream_bytes_len(s.subrange(1, s.len() as int));
    }
}

/// Encodes a whole stream of records.
pub fn encode_stream(records: &Vec<SpatialRecord>) -> (out: Vec<u8>)
    ensures
        out@ == stream_bytes(records@),
        out@.len() == 12 * records@.len(),
{
    let mut out: Vec<u8> = Vec::new();
    let mut i: usize = 0;
    proof {
        assert(records@.subrange(0, 0) =~= Seq::<SpatialRecord>::empty());
    }
    while i < records.len()
        invariant
            i <= records@.len(),
            out@ == stream_bytes(records@.subrange(0, i as int)),
        decreases records@.len() - i,
    {
        proof {
            lemma_stream_bytes_snoc(records@.subrange(0, i as int), records@[i as int]);
            assert(records@.subrange(0, i as int).push(records@[i as int]) =~= records@.subrange(
                0,
                i as int + 1,
            ));
        }
        encode_record(records[i], &mut out);
        i = i + 1;
    }
    proof {
        assert(records@.subrange(0, records@.len() as int) =~= records@);
        lemma_stream_bytes_len(records@);
    }
    out
}

/// Reads the 64-bit word little-endian at byte offset `off`.
pub fn decode_u64_at(b: &Vec<u8>, off: usize) -> (x: u64)
    requires
        off + 8 <= b@.len(),
    ensures
        x == u64_from_le(b@, off as int),
{
    let n = b.len();
    assert(off + 8 <= n);
    (b[off] as u64) | ((b[off + 1] as u64) << 8) | ((b[off + 2] as u64) << 16) | ((b[off + 3]
        as u64) << 24) | ((b[off + 4] as u64) << 32) | ((b[off + 5] as u64) << 40) | ((b[off + 6]
        as u64) << 48) | ((b[off + 7] as u64) << 56)
}

/// Reads the 32-bit word little-endian at byte offset `off`.
pub fn decode_u32_at(b: &Vec<u8>, off: usize) -> (x: u32)
    requires
        off + 4 <= b@.len(),
    ensures
        x == u32_from_le(b@, off as int),
{
    let n = b.len();
    assert(off + 4 <= n);
    (b[off] as u32) | ((b[off + 1] as u32) << 8) | ((b[off + 2] as u32) << 16) | ((b[off + 3]
        as u32) << 24)
}

/// Decodes a whole stream. Succeeds exactly on streams that are a whole
/// number of records; any other length ends inside a record and is a
/// truncation error.
pub fn decode_stream(bytes: &Vec<u8>) -> (r: Result<Vec<SpatialRecord>, StreamError>)
    ensures
        match r {
            Ok(v) => bytes@.len() % 12 == 0 && v@ == parse_stream(bytes@),
            Err(e) => bytes@.len() % 12 != 0 && e == StreamError::TruncatedRecord,
        },
{
    let len = bytes.len();
    if len % 12 != 0 {
        return Err(StreamError::TruncatedRecord);
    }
    let n = len / 12;
    let mut out: Vec<SpatialRecord> = Vec::new();
    let mut k: usize = 0;
    while k < n
        invariant
            k <= n,
            len == bytes@.len(),
            n == bytes@.len() / 12,
            bytes@.len() % 12 == 0,
            out@.len() == k,
            forall|j: int| 0 <= j < k ==> out@[j] == record_at(bytes@, j),
        decreases n - k,
    {
        proof {
            lemma_fundamental_div_mod(bytes@.len() as int, 12);
            assert(12 * (k + 1) <= bytes@.len());
        }
        let off = k * 12;
        let cell = decode_u64_at(bytes, off);
        let value = decode_u32_at(bytes, off + 8);
        out.push(SpatialRecord { cell, value });
        k = k + 1;
    }
    proof {
        assert(out@ =~= parse_stream(bytes@));
    }
    Ok(out)
}

/// Reading back the 8 little-endian bytes of a word gives the word.
pub proof fn lemma_u64_le_inverse(b: Seq<u8>, off: int, x: u64)
    requires
        0 <= off,
        off + 8 <= b.len(),
        forall|i: int| 0 <= i < 8 ==> b[off + i] == u64_le_bytes(x)[i],
    ensures
        u64_from_le(b, off) == x,
{
    let b0 = b[off];
    let b1 = b[off + 1];
    let b2 = b[off + 2];
    let b3 = b[off + 3];
    let b4 = b[off + 4];
    let b5 = b[off + 5];
    let b6 = b[off + 6];
    let b7 = b[off + 7];
    assert(b0 == u64_le_bytes(x)[0]);
    assert(b1 == u64_le_bytes(x)[1]);
    assert(b2 == u64_le_bytes(x)[2]);
    assert(b3 == u64_le_bytes(x)[3]);
    assert(b4 == u64_le_bytes(x)[4]);
    assert(b5 == u64_le_bytes(x)[5]);
    assert(b6 == u64_le_bytes(x)[6]);
    assert(b7 == u64_le_bytes(x)[7]);
    assert((b0 as u64) | ((b1 as u64) << 8) | ((b2 as u64) << 16) | ((b3 as u64) << 24) | ((b4
        as u64) << 32) | ((b5 as u64) << 40) | ((b6 as u64) << 48) | ((b7 as u64) << 56) == x)
        by (bit_vector)
        requires
            b0 == (x & 0xFF) as u8,
            b1 == ((x >> 8) & 0xFF) as u8,
            b2 == ((x >> 16) & 0xFF) as u8,
            b3 == ((x >> 24) & 0xFF) as u8,
            b4 == ((x >> 32) & 0xFF) as u8,
            b5 == ((x >> 40) & 0xFF) as u8,
            b6 == ((x >> 48) & 0xFF) as u8,
            b7 == ((x >> 56) & 0xFF) as u8,
    ;
}

/// Reading back the 4 little-endian bytes of a word gives the word.
pub proof fn lemma_u32_le_inverse(b: Seq<u8>, off: int, x: u32)
    requires
        0 <= off,
        off + 4 <= b.len(),
        forall|i: int| 0 <= i < 4 ==> b[off + i] == u32_le_bytes(x)[i],
    ensures
        u32_from_le(b, off) == x,
{
    let b0 = b[off];
    let b1 = b[off + 1];
    let b2 = b[off + 2];
    let b3 = b[off + 3];
    assert(b0 == u32_le_bytes(x)[0]);
    assert(b1 == u32_le_bytes(x)[1]);
    assert(b2 == u32_le_bytes(x)[2]);
    assert(b3 == u32_le_bytes(x)[3]);
    assert((b0 as u32) | ((b1 as u32) << 8) | ((b2 as u32) << 16) | ((b3 as u32) << 24) == x)
        by (bit_vector)
        requires
            b0 == (x & 0xFF) as u8,
            b1 == ((x >> 8) & 0xFF) as u8,
            b2 == ((x >> 16) & 0xFF) as u8,
            b3 == ((x >> 24) & 0xFF) as u8,
    ;
}

/// Round trip: decoding an encoded stream yields the original records,
/// cell identifiers and value bit patterns alike.
#[verifier::rlimit(60)]
pub proof fn lemma_stream_round_trip(s: Seq<SpatialRecord>)
    ensures
        stream_bytes(s).len() % 12 == 0,
        parse_stream(stream_bytes(s)) == s,
    decreases s.len(),
{
    lemma_stream_bytes_len(s);
    let b = stream_bytes(s);
    if s.len() == 0 {
        assert(parse_stream(b) =~= s);
    } else {
        let tail = s.subrange(1, s.len() as int);
        let tb = stream_bytes(tail);
        lemma_stream_round_trip(tail);
        lemma_stream_bytes_len(tail);
        assert(b == record_bytes(s[0]) + tb);
        assert forall|i: int| 0 <= i < 8 implies b[0 + i] == u64_le_bytes(s[0].cell)[i] by {
            assert(b[i] == record_bytes(s[0])[i]);
        }
        lemma_u64_le_inverse(b, 0, s[0].cell);
        assert forall|i: int| 0 <= i < 4 implies b[8 + i] == u32_le_bytes(s[0].value)[i] by {
            assert(b[8 + i] == record_bytes(s[0])[8 + i]);
        }
        lemma_u32_le_inverse(b, 8, s[0].value);
        assert(record_at(b, 0) == s[0]);
        assert forall|k: int| 1 <= k < s.len() implies record_at(b, k) == s[k] by {
            let o = 12 * k;
            assert(o + 11 < b.len());
            assert(b[o] == tb[o - 12]);
            assert(b[o + 1] == tb[o - 11]);
            assert(b[o + 2] == tb[o - 10]);
            assert(b[o + 3] == tb[o - 9]);
            assert(b[o + 4] == tb[o - 8]);
            assert(b[o + 5] == tb[o - 7]);
            assert(b[o + 6] == tb[o - 6]);
            assert(b[o + 7] == tb[o - 5]);
            assert(b[o + 8] == tb[o - 4]);
            assert(b[o + 9] == tb[o - 3]);
            assert(b[o + 10] == tb[o - 2]);
            assert(b[o + 11] == tb[o - 1]);
            assert(u64_from_le(b, o) == u64_from_le(tb, 12 * (k - 1)));
            assert(u32_from_le(b, o + 8) == u32_from_le(tb, 12 * (k - 1) + 8));
            assert(parse_stream(tb)[k - 1] == record_at(tb, k - 1));
            assert(record_at(b, k) == tail[k - 1]);
        }
        assert(parse_stream(b) =~= s);
    }
}

} // verus!
