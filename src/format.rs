//! The binary layout of a store: a fixed header followed by one entry per
//! record, little-endian throughout, with no padding.
use vstd::prelude::*;
use vstd::bytes::*;
use crate::error::ErrorKind;
use crate::store::{record_fits, RecordView, StoreView};

verus! {

/// The only format version this library reads and writes.
pub const VERSION: u32 = 1;

/// Length in bytes of the header: magic, version, record count, dimension,
/// and a reserved block.
pub const HEADER_LEN: usize = 36;

/// Length in bytes of the zero-filled reserved block that ends the header.
pub const RESERVED_LEN: usize = 16;

/// The four bytes `"YAVS"` that open every encoded store.
pub open spec fn magic() -> Seq<u8> {
    seq![0x59u8, 0x41u8, 0x56u8, 0x53u8]
}

/// Each value as four little-endian bytes, one after the other.
pub open spec fn encode_words(s: Seq<u32>) -> Seq<u8>
    decreases s.len(),
{
    if s.len() == 0 {
        Seq::empty()
    } else {
        encode_words(s.drop_last()) + spec_u32_to_le_bytes(s.last())
    }
}

/// The `n` little-endian 32-bit values at the start of `b`.
pub open spec fn parse_words(b: Seq<u8>, n: nat) -> Seq<u32> {
    Seq::new(n, |i: int| spec_u32_from_le_bytes(b.subrange(4 * i, 4 * i + 4)))
}

/// The header that announces `n` records of dimension `dim`.
pub open spec fn encode_header(dim: u32, n: u64) -> Seq<u8> {
    magic() + spec_u32_to_le_bytes(VERSION) + spec_u64_to_le_bytes(n) + spec_u32_to_le_bytes(dim)
        + Seq::new(RESERVED_LEN as nat, |i: int| 0u8)
}

/// One record entry: id, embedding, metadata length, metadata.
pub open spec fn encode_record(r: RecordView) -> Seq<u8> {
    r.id + encode_words(r.embedding) + spec_u32_to_le_bytes(r.metadata.len() as u32) + r.metadata
}

/// The entries of all records, in order.
pub open spec fn encode_records(rs: Seq<RecordView>) -> Seq<u8>
    decreases rs.len(),
{
    if rs.len() == 0 {
        Seq::empty()
    } else {
        encode_records(rs.drop_last()) + encode_record(rs.last())
    }
}

/// The full encoding of a store: header, then every record it holds.
pub open spec fn encode_store(s: StoreView) -> Seq<u8> {
    encode_header(s.dim, s.records.len() as u64) + encode_records(s.records)
}

/// Length of the fixed part of a record entry of dimension `dim`.
pub open spec fn entry_fixed_len(dim: nat) -> nat {
    16 + 4 * dim + 4
}

/// The record entry at the start of `b` and the number of bytes it takes, or
/// `None` where `b` ends before the entry does.
pub open spec fn parse_record(b: Seq<u8>, dim: nat) -> Option<(RecordView, nat)> {
    let fixed = entry_fixed_len(dim) as int;
    let d = dim as int;
    if b.len() < fixed {
        None
    } else {
        let m = spec_u32_from_le_bytes(b.subrange(16 + 4 * d, fixed)) as int;
        if b.len() < fixed + m {
            None
        } else {
            Some(
                (
                    RecordView {
                        id: b.subrange(0, 16),
                        embedding: parse_words(b.subrange(16, 16 + 4 * d), dim),
                        metadata: b.subrange(fixed, fixed + m),
                        deleted: false,
                    },
                    (fixed + m) as nat,
                ),
            )
        }
    }
}

/// The `n` record entries at the start of `b`, or `None` where `b` ends early.
pub open spec fn parse_records(b: Seq<u8>, dim: nat, n: nat) -> Option<Seq<RecordView>>
    decreases n,
{
    if n == 0 {
        Some(Seq::empty())
    } else {
        match parse_record(b, dim) {
            None => None,
            Some((r, used)) => match parse_records(b.skip(used as int), dim, (n - 1) as nat) {
                None => None,
                Some(rest) => Some(seq![r] + rest),
            },
        }
    }
}

/// What decoding `b` yields: the store it encodes, or the kind of failure.
/// Bytes after the last announced record are not read.
pub open spec fn decode(b: Seq<u8>) -> Result<StoreView, ErrorKind> {
    if b.len() < 4 {
        Err(ErrorKind::Io)
    } else if b.take(4) != magic() {
        Err(ErrorKind::InvalidFile)
    } else if b.len() < 8 {
        Err(ErrorKind::Io)
    } else if spec_u32_from_le_bytes(b.subrange(4, 8)) != VERSION {
        Err(ErrorKind::VersionMismatch)
    } else if b.len() < HEADER_LEN {
        Err(ErrorKind::Io)
    } else {
        let n = spec_u64_from_le_bytes(b.subrange(8, 16));
        let dim = spec_u32_from_le_bytes(b.subrange(16, 20));
        match parse_records(b.skip(HEADER_LEN as int), dim as nat, n as nat) {
            None => Err(ErrorKind::Io),
            Some(rs) => Ok(StoreView { dim, records: rs }),
        }
    }
}

pub proof fn lemma_encode_words_len(s: Seq<u32>)
    ensures
        encode_words(s).len() == 4 * s.len(),
    decreases s.len(),
{
    lemma_auto_spec_u32_to_from_le_bytes();
    if s.len() > 0 {
        lemma_encode_words_len(s.drop_last());
    }
}

pub proof fn lemma_encode_words_at(s: Seq<u32>, i: int)
    requires
        0 <= i < s.len(),
    ensures
        encode_words(s).subrange(4 * i, 4 * i + 4) == spec_u32_to_le_bytes(s[i]),
    decreases s.len(),
{
    lemma_auto_spec_u32_to_from_le_bytes();
    lemma_encode_words_len(s.drop_last());
    let prefix = encode_words(s.drop_last());
    let last = spec_u32_to_le_bytes(s.last());
    if i == s.len() - 1 {
        assert(encode_words(s).subrange(4 * i, 4 * i + 4) =~= last);
    } else {
        lemma_encode_words_at(s.drop_last(), i);
        assert(encode_words(s).subrange(4 * i, 4 * i + 4) =~= prefix.subrange(4 * i, 4 * i + 4));
    }
}

pub proof fn lemma_parse_words_encode(s: Seq<u32>)
    ensures
        parse_words(encode_words(s), s.len()) == s,
{
    lemma_auto_spec_u32_to_from_le_bytes();
    assert forall|i: int| 0 <= i < s.len() implies parse_words(encode_words(s), s.len())[i]
        == s[i] by {
        lemma_encode_words_at(s, i);
        assert(spec_u32_to_le_bytes(s[i]).len() == 4);
        assert(spec_u32_from_le_bytes(spec_u32_to_le_bytes(s[i])) == s[i]);
    }
    assert(parse_words(encode_words(s), s.len()) =~= s);
}

pub proof fn lemma_parse_record_encode(r: RecordView, dim: u32, rest: Seq<u8>)
    requires
        record_fits(r, dim),
        !r.deleted,
    ensures
        parse_record(encode_record(r) + rest, dim as nat) == Some((r, encode_record(r).len())),
{
    lemma_auto_spec_u32_to_from_le_bytes();
    lemma_encode_words_len(r.embedding);
    lemma_parse_words_encode(r.embedding);
    let d = dim as int;
    let m = r.metadata.len() as int;
    let len_bytes = spec_u32_to_le_bytes(r.metadata.len() as u32);
    assert(len_bytes.len() == 4);
    let b = encode_record(r) + rest;
    assert(b.subrange(0, 16) =~= r.id);
    assert(b.subrange(16, 16 + 4 * d) =~= encode_words(r.embedding));
    assert(b.subrange(16 + 4 * d, 20 + 4 * d) =~= len_bytes);
    assert(spec_u32_from_le_bytes(len_bytes) == r.metadata.len() as u32);
    assert(b.subrange(20 + 4 * d, 20 + 4 * d + m) =~= r.metadata);
}

pub proof fn lemma_encode_records_front(rs: Seq<RecordView>)
    requires
        rs.len() > 0,
    ensures
        encode_records(rs) == encode_record(rs[0]) + encode_records(rs.drop_first()),
    decreases rs.len(),
{
    if rs.len() == 1 {
        assert(rs.drop_last() =~= Seq::<RecordView>::empty());
        assert(rs.drop_first() =~= Seq::<RecordView>::empty());
        assert(encode_records(rs) =~= encode_record(rs[0]) + encode_records(rs.drop_first()));
    } else {
        let init = rs.drop_last();
        lemma_encode_records_front(init);
        assert(rs.drop_first().drop_last() =~= init.drop_first());
        assert(rs.drop_first().last() == rs.last());
        assert(init[0] == rs[0]);
        assert(encode_records(rs) =~= encode_record(rs[0]) + encode_records(rs.drop_first()));
    }
}

pub proof fn lemma_parse_records_encode(rs: Seq<RecordView>, dim: u32, rest: Seq<u8>)
    requires
        forall|i: int| 0 <= i < rs.len() ==> record_fits(#[trigger] rs[i], dim) && !rs[i].deleted,
    ensures
        parse_records(encode_records(rs) + rest, dim as nat, rs.len()) == Some(rs),
    decreases rs.len(),
{
    if rs.len() == 0 {
        assert(encode_records(rs) + rest =~= rest);
        assert(rs =~= Seq::<RecordView>::empty());
    } else {
        let tail = rs.drop_first();
        lemma_encode_records_front(rs);
        let head = encode_record(rs[0]);
        let b = encode_records(rs) + rest;
        assert(b =~= head + (encode_records(tail) + rest));
        lemma_parse_record_encode(rs[0], dim, encode_records(tail) + rest);
        assert(b.skip(head.len() as int) =~= encode_records(tail) + rest);
        assert forall|i: int| 0 <= i < tail.len() implies record_fits(#[trigger] tail[i], dim)
            && !tail[i].deleted by {
            assert(tail[i] == rs[i + 1]);
        }
        lemma_parse_records_encode(tail, dim, rest);
        assert(seq![rs[0]] + tail =~= rs);
    }
}

/// Every store whose records are all live decodes from its own encoding to
/// itself.
pub proof fn lemma_decode_encode(s: StoreView)
    requires
        s.wf(),
        s.records.len() <= u64::MAX,
        forall|i: int| 0 <= i < s.records.len() ==> !(#[trigger] s.records[i]).deleted,
    ensures
        decode(encode_store(s)) == Ok::<StoreView, ErrorKind>(s),
{
    lemma_auto_spec_u32_to_from_le_bytes();
    lemma_auto_spec_u64_to_from_le_bytes();
    let n = s.records.len() as u64;
    let b = encode_store(s);
    let v = spec_u32_to_le_bytes(VERSION);
    let c = spec_u64_to_le_bytes(n);
    let d = spec_u32_to_le_bytes(s.dim);
    assert(v.len() == 4 && d.len() == 4);
    assert(c.len() == 8);
    assert(b.take(4) =~= magic());
    assert(b.subrange(4, 8) =~= v);
    assert(b.subrange(8, 16) =~= c);
    assert(b.subrange(16, 20) =~= d);
    assert(b.skip(HEADER_LEN as int) =~= encode_records(s.records) + Seq::empty());
    lemma_parse_records_encode(s.records, s.dim, Seq::empty());
}

/// Round trip: encoding a store (which keeps only its live records) and
/// decoding the bytes gives back the same dimension and the same live
/// records, with the same ids, embeddings and metadata, in the same order.
pub proof fn lemma_round_trip(s: StoreView)
    requires
        s.wf(),
        s.records.len() <= u64::MAX,
    ensures
        decode(encode_store(s.compacted())) == Ok::<StoreView, ErrorKind>(s.compacted()),
{
    let p = |r: RecordView| !r.deleted;
    let c = s.compacted();
    s.records.lemma_filter_len(p);
    assert forall|i: int| 0 <= i < c.records.len() implies record_fits(#[trigger] c.records[i], c.dim)
        && !c.records[i].deleted by {
        s.records.lemma_filter_pred(p, i);
        assert(c.records.contains(c.records[i]));
        s.records.lemma_filter_contains_rev(p, c.records[i]);
    }
    lemma_decode_encode(c);
}

/// Saving compacts: the encoding a save writes announces exactly as many
/// records as the store keeps in memory afterwards, and neither the store
/// nor what decodes from the encoding holds a tombstone.
pub proof fn lemma_save_compacts(s: StoreView)
    requires
        s.wf(),
        s.records.len() <= u64::MAX,
    ensures
        ({
            let c = s.compacted();
            let b = encode_store(c);
            &&& spec_u64_from_le_bytes(b.subrange(8, 16)) == c.records.len()
            &&& forall|i: int| 0 <= i < c.records.len() ==> !(#[trigger] c.records[i]).deleted
            &&& decode(b) matches Ok(t) && t.records.len() == c.records.len() && forall|i: int|
                0 <= i < t.records.len() ==> !(#[trigger] t.records[i]).deleted
        }),
{
    lemma_auto_spec_u64_to_from_le_bytes();
    let p = |r: RecordView| !r.deleted;
    let c = s.compacted();
    s.records.lemma_filter_len(p);
    assert forall|i: int| 0 <= i < c.records.len() implies !(#[trigger] c.records[i]).deleted by {
        s.records.lemma_filter_pred(p, i);
    }
    let n = c.records.len() as u64;
    lemma_auto_spec_u32_to_from_le_bytes();
    assert(spec_u64_to_le_bytes(n).len() == 8);
    assert(spec_u32_to_le_bytes(VERSION).len() == 4);
    assert(spec_u32_to_le_bytes(c.dim).len() == 4);
    assert(encode_store(c).subrange(8, 16) =~= spec_u64_to_le_bytes(n));
    lemma_round_trip(s);
}

/// A stream whose first four bytes are not the magic is rejected as not a
/// store.
pub proof fn lemma_bad_magic(b: Seq<u8>)
    requires
        b.len() >= 4,
        b.take(4) != magic(),
    ensures
        decode(b) == Err::<StoreView, ErrorKind>(ErrorKind::InvalidFile),
{
}

/// A stream with the magic but another version tag is rejected as a version
/// mismatch.
pub proof fn lemma_bad_version(b: Seq<u8>)
    requires
        b.len() >= 8,
        b.take(4) == magic(),
        spec_u32_from_le_bytes(b.subrange(4, 8)) != VERSION,
    ensures
        decode(b) == Err::<StoreView, ErrorKind>(ErrorKind::VersionMismatch),
{
}

} // verus!
