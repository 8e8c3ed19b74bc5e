use vstd::prelude::*;
use vstd::bytes::*;
use vstd::slice::{slice_subrange, slice_to_vec};
use crate::error::{ErrorKind, YAVSError};
use crate::format::{decode, parse_records, HEADER_LEN, encode_header, encode_record, encode_records, encode_store, encode_words, magic, parse_record, parse_words, RESERVED_LEN, VERSION};

verus! {

/// One stored vector. Each embedding component is the bit pattern of a
/// 32-bit float.
#[derive(Debug)]
pub struct Record {
    pub id: [u8; 16],
    pub embedding: Vec<u32>,
    pub metadata: Vec<u8>,
    pub deleted: bool,
}

/// The mathematical value of a record.
pub ghost struct RecordView {
    pub id: Seq<u8>,
    pub embedding: Seq<u32>,
    pub metadata: Seq<u8>,
    pub deleted: bool,
}

impl View for Record {
    type V = RecordView;

    open spec fn view(&self) -> RecordView {
        RecordView {
            id: self.id@,
            embedding: self.embedding@,
            metadata: self.metadata@,
            deleted: self.deleted,
        }
    }
}

/// The views of a sequence of records, in order.
pub open spec fn views(rs: Seq<Record>) -> Seq<RecordView> {
    rs.map_values(|r: Record| r@)
}

/// The records that have not been marked deleted, in their original order.
pub open spec fn live(rs: Seq<RecordView>) -> Seq<RecordView> {
    rs.filter(|r: RecordView| !r.deleted)
}

pub proof fn lemma_live_push(s: Seq<RecordView>, r: RecordView)
    ensures
        live(s.push(r)) == (if r.deleted { live(s) } else { live(s).push(r) }),
{
    reveal(Seq::filter);
    assert(s.push(r).drop_last() =~= s);
}

proof fn lemma_live_idempotent(rs: Seq<RecordView>)
    ensures
        live(live(rs)) == live(rs),
    decreases rs.len(),
{
    if rs.len() == 0 {
        reveal(Seq::filter);
    } else {
        let init = rs.drop_last();
        lemma_live_idempotent(init);
        assert(init.push(rs.last()) =~= rs);
        lemma_live_push(init, rs.last());
        lemma_live_push(live(init), rs.last());
    }
}

/// Compacting twice leaves the same records as compacting once.
pub proof fn lemma_compact_idempotent(s: StoreView)
    ensures
        s.compacted().compacted() == s.compacted(),
{
    lemma_live_idempotent(s.records);
}

/// A record is storable in a store of dimension `dim`.
pub open spec fn record_fits(r: RecordView, dim: u32) -> bool {
    &&& r.id.len() == 16
    &&& r.embedding.len() == dim
    &&& r.metadata.len() <= u32::MAX
}

/// The mathematical value of a store: its dimension and its records in order.
pub ghost struct StoreView {
    pub dim: u32,
    pub records: Seq<RecordView>,
}

impl StoreView {
    /// Every record has the store's dimension and a metadata length that fits
    /// the encoding.
    pub open spec fn wf(self) -> bool {
        forall|i: int| 0 <= i < self.records.len() ==> record_fits(#[trigger] self.records[i], self.dim)
    }

    /// The same store with every tombstoned record dropped.
    pub open spec fn compacted(self) -> StoreView {
        StoreView { dim: self.dim, records: live(self.records) }
    }

    /// Index of the first record whose id is `id`, if any.
    pub open spec fn find(self, id: Seq<u8>) -> Option<int> {
        if exists|i: int| 0 <= i < self.records.len() && self.records[i].id == id {
            let i = choose|i: int|
                0 <= i < self.records.len() && self.records[i].id == id && forall|j: int|
                    0 <= j < i ==> self.records[j].id != id;
            Some(i)
        } else {
            None
        }
    }

    /// The store after a removal of `id`: the first record bearing it marked
    /// deleted, or no change where none does.
    pub open spec fn removed(self, id: Seq<u8>) -> StoreView {
        match self.find(id) {
            Some(k) => StoreView {
                dim: self.dim,
                records: self.records.update(k, RecordView { deleted: true, ..self.records[k] }),
            },
            None => self,
        }
    }

    /// The store after appending a live record.
    pub open spec fn appended(self, id: Seq<u8>, embedding: Seq<u32>, metadata: Seq<u8>) -> StoreView {
        StoreView {
            dim: self.dim,
            records: self.records.push(
                RecordView { id, embedding, metadata, deleted: false },
            ),
        }
    }
}

/// Relies on uuid's `Uuid::new_v4` and `Uuid::as_bytes`: sixteen bytes drawn
/// from the random source, with the version nibble (high half of byte 6) set
/// to 4 and the variant bits (top two of byte 8) set to `10`.
#[verifier::external_body]
fn fresh_id() -> (id: [u8; 16])
    ensures
        id@[6] / 16 == 4,
        id@[8] / 64 == 2,
{
    *uuid::Uuid::new_v4().as_bytes()
}

/// Whether two ids hold the same bytes.
pub fn same_id(a: &[u8; 16], b: &[u8; 16]) -> (r: bool)
    ensures
        r == (a@ == b@),
{
    for j in 0..16usize
        invariant
            forall|t: int| 0 <= t < j ==> a@[t] == b@[t],
    {
        if a[j] != b[j] {
            return false;
        }
    }
    assert(a@ =~= b@);
    true
}

proof fn lemma_first_exists(s: StoreView, id: Seq<u8>, w: int)
    requires
        0 <= w < s.records.len(),
        s.records[w].id == id,
    ensures
        exists|i: int|
            0 <= i < s.records.len() && s.records[i].id == id && forall|j: int|
                0 <= j < i ==> s.records[j].id != id,
    decreases w,
{
    if exists|j: int| 0 <= j < w && s.records[j].id == id {
        let j = choose|j: int| 0 <= j < w && s.records[j].id == id;
        lemma_first_exists(s, id, j);
    }
}

/// `find` gives the first record bearing the id, or `None` where none does.
pub proof fn lemma_find(s: StoreView, id: Seq<u8>)
    ensures
        match s.find(id) {
            Some(f) => 0 <= f < s.records.len() && s.records[f].id == id && forall|j: int|
                0 <= j < f ==> s.records[j].id != id,
            None => forall|j: int| 0 <= j < s.records.len() ==> s.records[j].id != id,
        },
{
    if exists|i: int| 0 <= i < s.records.len() && s.records[i].id == id {
        let w = choose|i: int| 0 <= i < s.records.len() && s.records[i].id == id;
        lemma_first_exists(s, id, w);
    }
}

/// A vector record store of fixed dimension.
#[derive(Debug)]
pub struct YAVS {
    dim: u32,
    records: Vec<Record>,
}

impl View for YAVS {
    type V = StoreView;

    closed spec fn view(&self) -> StoreView {
        StoreView { dim: self.dim, records: views(self.records@) }
    }
}

/// Joins the records decoded so far with what decoding the rest yields.
pub open spec fn after(done: Seq<RecordView>, rest: Option<Seq<RecordView>>) -> Option<Seq<RecordView>> {
    match rest {
        None => None,
        Some(t) => Some(done + t),
    }
}

/// The error for a byte stream that ends before an expected field does.
fn short_read() -> (e: YAVSError)
    ensures
        e.kind() == ErrorKind::Io,
{
    YAVSError::IoError("failed to fill whole buffer".to_string())
}

/// Appends the entry of `r` to `out`.
fn append_record(out: &mut Vec<u8>, r: &Record)
    requires
        r.metadata@.len() <= u32::MAX,
    ensures
        final(out)@ == old(out)@ + encode_record(r@),
{
    let ghost start = out@;
    for j in 0..16usize
        invariant
            out@ == start + r.id@.take(j as int),
    {
        out.push(r.id[j]);
        assert(r.id@.take(j + 1) =~= r.id@.take(j as int).push(r.id@[j as int]));
    }
    assert(r.id@.take(16) =~= r.id@);
    let ghost with_id = out@;
    let n = r.embedding.len();
    for j in 0..n
        invariant
            n == r.embedding@.len(),
            out@ == with_id + encode_words(r.embedding@.take(j as int)),
    {
        let mut word = u32_to_le_bytes(r.embedding[j]);
        out.append(&mut word);
        assert(r.embedding@.take(j + 1).drop_last() =~= r.embedding@.take(j as int));
    }
    assert(r.embedding@.take(n as int) =~= r.embedding@);
    let mut len_bytes = u32_to_le_bytes(r.metadata.len() as u32);
    out.append(&mut len_bytes);
    let ghost with_len = out@;
    for j in 0..r.metadata.len()
        invariant
            out@ == with_len + r.metadata@.take(j as int),
    {
        out.push(r.metadata[j]);
        assert(r.metadata@.take(j + 1) =~= r.metadata@.take(j as int).push(r.metadata@[j as int]));
    }
    assert(r.metadata@.take(r.metadata@.len() as int) =~= r.metadata@);
    assert(out@ =~= start + encode_record(r@));
}

/// The entry that starts at `pos` in `buf`, and the position just after it.
fn parse_entry(buf: &[u8], pos: usize, dim: u32) -> (r: Option<(Record, usize)>)
    requires
        pos <= buf@.len(),
    ensures
        match r {
            None => parse_record(buf@.skip(pos as int), dim as nat) is None,
            Some((rec, end)) => {
                &&& pos <= end <= buf@.len()
                &&& parse_record(buf@.skip(pos as int), dim as nat) == Some((rec@, (end - pos) as nat))
                &&& record_fits(rec@, dim)
            },
        },
{
    let blen = buf.len();
    let ghost b = buf@.skip(pos as int);
    let ghost d = dim as int;
    let remaining = (buf.len() - pos) as u64;
    let fixed: u64 = 20 + 4 * (dim as u64);
    if remaining < fixed {
        return None;
    }
    let id: [u8; 16] = [
        buf[pos], buf[pos + 1], buf[pos + 2], buf[pos + 3],
        buf[pos + 4], buf[pos + 5], buf[pos + 6], buf[pos + 7],
        buf[pos + 8], buf[pos + 9], buf[pos + 10], buf[pos + 11],
        buf[pos + 12], buf[pos + 13], buf[pos + 14], buf[pos + 15],
    ];
    assert(id@ =~= b.subrange(0, 16));
    let ghost words = b.subrange(16, 16 + 4 * d);
    let mut embedding: Vec<u32> = Vec::new();
    let mut p: usize = pos + 16;
    for j in 0..dim
        invariant
            pos + 16 <= p,
            p == pos + 16 + 4 * j,
            (pos as int) + 20 + 4 * d <= blen,
            blen == buf@.len(),
            b == buf@.skip(pos as int),
            words == b.subrange(16, 16 + 4 * d),
            d == dim,
            embedding@ == parse_words(words, dim as nat).take(j as int),
    {
        assert(p + 4 <= blen) by (nonlinear_arith)
            requires
                p == pos + 16 + 4 * j,
                j < d,
                (pos as int) + 20 + 4 * d <= blen,
        ;
        let w = u32_from_le_bytes(slice_subrange(buf, p, p + 4));
        assert(buf@.subrange(p as int, p + 4) =~= words.subrange(4 * j, 4 * j + 4));
        embedding.push(w);
        p = p + 4;
        assert(embedding@ =~= parse_words(words, dim as nat).take(j + 1));
    }
    assert(embedding@ =~= parse_words(words, dim as nat));
    let m = u32_from_le_bytes(slice_subrange(buf, p, p + 4));
    assert(buf@.subrange(p as int, p + 4) =~= b.subrange(16 + 4 * d, 20 + 4 * d));
    if remaining - fixed < m as u64 {
        return None;
    }
    let start = p + 4;
    let end = start + m as usize;
    let metadata = slice_to_vec(slice_subrange(buf, start, end));
    assert(metadata@ =~= b.subrange(20 + 4 * d, 20 + 4 * d + m));
    let rec = Record { id, embedding, metadata, deleted: false };
    Some((rec, end))
}

impl YAVS {
    /// An empty store of dimension `dim`.
    pub fn new(dim: u32) -> (s: YAVS)
        ensures
            s@.dim == dim,
            s@.records == Seq::<RecordView>::empty(),
            s@.wf(),
    {
        YAVS { dim, records: Vec::new() }
    }

    /// The store's fixed dimension.
    pub fn dimension(&self) -> (d: u32)
        ensures
            d == self@.dim,
    {
        self.dim
    }

    /// Number of records held in memory, tombstoned ones included.
    pub fn len(&self) -> (n: usize)
        ensures
            n == self@.records.len(),
    {
        self.records.len()
    }

    /// The records held in memory, in order, tombstoned ones included.
    pub fn records(&self) -> (rs: &[Record])
        ensures
            views(rs@) == self@.records,
    {
        self.records.as_slice()
    }

    /// Appends a live record with the given id, where the embedding has the
    /// store's dimension; otherwise fails with `DimMismatch` and changes
    /// nothing.
    pub fn insert_with_id(&mut self, embedding: &[u32], metadata: &[u8], id: [u8; 16]) -> (r: Result<[u8; 16], YAVSError>)
        requires
            old(self)@.wf(),
            metadata@.len() <= u32::MAX,
        ensures
            final(self)@.wf(),
            embedding@.len() == old(self)@.dim ==> r == Ok::<[u8; 16], YAVSError>(id)
                && final(self)@ == old(self)@.appended(id@, embedding@, metadata@),
            embedding@.len() != old(self)@.dim ==> (r matches Err(e) && e.kind() == ErrorKind::DimMismatch
                && final(self)@ == old(self)@),
    {
        if embedding.len() as u64 != self.dim as u64 {
            return Err(YAVSError::DimMismatch);
        }
        let rec = Record {
            id,
            embedding: slice_to_vec(embedding),
            metadata: slice_to_vec(metadata),
            deleted: false,
        };
        self.records.push(rec);
        assert(self@.records =~= old(self)@.appended(id@, embedding@, metadata@).records);
        Ok(id)
    }

    /// Appends a live record under a freshly generated random id and returns
    /// that id, where the embedding has the store's dimension; otherwise fails
    /// with `DimMismatch` and changes nothing.
    pub fn insert(&mut self, embedding: &[u32], metadata: &[u8]) -> (r: Result<[u8; 16], YAVSError>)
        requires
            old(self)@.wf(),
            metadata@.len() <= u32::MAX,
        ensures
            final(self)@.wf(),
            embedding@.len() == old(self)@.dim ==> (r matches Ok(id)
                && final(self)@ == old(self)@.appended(id@, embedding@, metadata@)),
            embedding@.len() != old(self)@.dim ==> (r matches Err(e) && e.kind() == ErrorKind::DimMismatch
                && final(self)@ == old(self)@),
    {
        if embedding.len() as u64 != self.dim as u64 {
            return Err(YAVSError::DimMismatch);
        }
        let id = fresh_id();
        self.insert_with_id(embedding, metadata, id)
    }

    /// Marks the first record bearing `id` as deleted and returns `true`, or
    /// returns `false` where no record bears it. Records stay in memory until
    /// the next compaction.
    pub fn remove(&mut self, id: &[u8; 16]) -> (r: bool)
        requires
            old(self)@.wf(),
        ensures
            final(self)@.wf(),
            r == old(self)@.find(id@) is Some,
            final(self)@ == old(self)@.removed(id@),
    {
        let n = self.records.len();
        for i in 0..n
            invariant
                n == self.records@.len(),
                self@ == old(self)@,
                old(self)@.wf(),
                forall|j: int| 0 <= j < i ==> self@.records[j].id != id@,
        {
            if same_id(&self.records[i].id, id) {
                proof {
                    let s = old(self)@;
                    let k = i as int;
                    assert(s.records[k].id == id@);
                    let c = choose|c: int|
                        0 <= c < s.records.len() && s.records[c].id == id@ && forall|j: int|
                            0 <= j < c ==> s.records[j].id != id@;
                    assert(c == k);
                }
                self.records[i].deleted = true;
                assert(self@.records =~= old(self)@.removed(id@).records);
                assert forall|j: int| 0 <= j < self@.records.len() implies record_fits(
                    #[trigger] self@.records[j],
                    self@.dim,
                ) by {
                    assert(record_fits(old(self)@.records[j], old(self)@.dim));
                }
                return true;
            }
        }
        false
    }

    /// Drops every tombstoned record, keeping the order of the others.
    pub fn compact(&mut self)
        requires
            old(self)@.wf(),
        ensures
            final(self)@ == old(self)@.compacted(),
            final(self)@.wf(),
    {
        let mut old_records: Vec<Record> = Vec::new();
        std::mem::swap(&mut old_records, &mut self.records);
        let ghost src = old_records@;
        let mut kept: Vec<Record> = Vec::new();
        for r in it: old_records
            invariant
                it.seq() == src,
                views(kept@) == live(views(src.take(it.index() as int))),
        {
            let ghost i = it.index() as int;
            assert(views(src.take(i + 1)) =~= views(src.take(i)).push(src[i]@));
            proof { lemma_live_push(views(src.take(i)), src[i]@); }
            if !r.deleted {
                kept.push(r);
                assert(views(kept@) =~= live(views(src.take(i))).push(src[i]@));
            }
        }
        assert(src.take(src.len() as int) =~= src);
        self.records = kept;
        proof {
            let c = old(self)@;
            let p = |r: RecordView| !r.deleted;
            c.records.lemma_filter_len(p);
            assert forall|i: int| 0 <= i < self@.records.len() implies record_fits(
                #[trigger] self@.records[i],
                self.dim,
            ) by {
                c.records.lemma_filter_pred(p, i);
                assert(self@.records.contains(self@.records[i]));
                c.records.lemma_filter_contains_rev(p, self@.records[i]);
            }
        }
    }

    /// Compacts the store, then encodes it: the header and every remaining
    /// record in order.
    pub fn save_mem(&mut self) -> (r: Result<Vec<u8>, YAVSError>)
        requires
            old(self)@.wf(),
        ensures
            final(self)@ == old(self)@.compacted(),
            final(self)@.wf(),
            r matches Ok(bytes) && bytes@ == encode_store(final(self)@),
    {
        self.compact();
        Ok(self.encode())
    }

    /// Decodes a store from `buf`. Bytes after the last announced record are
    /// ignored; every decoded record is live.
    pub fn load_mem(buf: &[u8]) -> (r: Result<YAVS, YAVSError>)
        ensures
            match r {
                Ok(s) => decode(buf@) == Ok::<StoreView, ErrorKind>(s@) && s@.wf(),
                Err(e) => decode(buf@) == Err::<StoreView, ErrorKind>(e.kind()),
            },
    {
        if buf.len() < 4 {
            return Err(short_read());
        }
        if buf[0] != 0x59u8 || buf[1] != 0x41u8 || buf[2] != 0x56u8 || buf[3] != 0x53u8 {
            assert(buf@.take(4) != magic()) by {
                if buf@.take(4) == magic() {
                    assert(buf@[0] == buf@.take(4)[0] && buf@[1] == buf@.take(4)[1]);
                    assert(buf@[2] == buf@.take(4)[2] && buf@[3] == buf@.take(4)[3]);
                }
            }
            return Err(YAVSError::InvalidFile);
        }
        assert(buf@.take(4) =~= magic());
        if buf.len() < 8 {
            return Err(short_read());
        }
        let version = u32_from_le_bytes(slice_subrange(buf, 4, 8));
        if version != VERSION {
            return Err(YAVSError::VersionMismatch);
        }
        if buf.len() < HEADER_LEN {
            return Err(short_read());
        }
        let n = u64_from_le_bytes(slice_subrange(buf, 8, 16));
        let dim = u32_from_le_bytes(slice_subrange(buf, 16, 20));
        let ghost body = buf@.skip(HEADER_LEN as int);
        let mut records: Vec<Record> = Vec::new();
        let mut pos: usize = HEADER_LEN;
        let mut i: u64 = 0;
        while i < n
            invariant
                HEADER_LEN <= pos <= buf@.len(),
                i <= n,
                buf@.take(4) == magic(),
                spec_u32_from_le_bytes(buf@.subrange(4, 8)) == VERSION,
                n == spec_u64_from_le_bytes(buf@.subrange(8, 16)),
                dim == spec_u32_from_le_bytes(buf@.subrange(16, 20)),
                body == buf@.skip(HEADER_LEN as int),
                parse_records(body, dim as nat, n as nat) == after(
                    views(records@),
                    parse_records(buf@.skip(pos as int), dim as nat, (n - i) as nat),
                ),
                forall|k: int|
                    0 <= k < records@.len() ==> record_fits(#[trigger] records@[k]@, dim) && !records@[k].deleted,
            decreases n - i,
        {
            let ghost rest = buf@.skip(pos as int);
            match parse_entry(buf, pos, dim) {
                None => {
                    assert(parse_records(rest, dim as nat, (n - i) as nat) is None);
                    return Err(short_read());
                },
                Some((rec, end)) => {
                    let ghost used = (end - pos) as nat;
                    assert(rest.skip(used as int) =~= buf@.skip(end as int));
                    let ghost tail = parse_records(buf@.skip(end as int), dim as nat, (n - i - 1) as nat);
                    assert(views(records@.push(rec)) =~= views(records@).push(rec@));
                    proof {
                        if let Some(t) = tail {
                            assert(views(records@) + (seq![rec@] + t) =~= views(records@).push(rec@) + t);
                        }
                    }
                    records.push(rec);
                    pos = end;
                    i = i + 1;
                },
            }
        }
        let s = YAVS { dim, records };
        assert(views(s.records@) + Seq::<RecordView>::empty() =~= views(s.records@));
        Ok(s)
    }

    /// The encoding of every record held, tombstoned ones included.
    fn encode(&self) -> (out: Vec<u8>)
        requires
            self@.wf(),
        ensures
            out@ == encode_store(self@),
    {
        let mut out: Vec<u8> = Vec::new();
        out.push(0x59u8);
        out.push(0x41u8);
        out.push(0x56u8);
        out.push(0x53u8);
        let mut version = u32_to_le_bytes(VERSION);
        out.append(&mut version);
        let mut count = u64_to_le_bytes(self.records.len() as u64);
        out.append(&mut count);
        let mut dim = u32_to_le_bytes(self.dim);
        out.append(&mut dim);
        for j in 0..RESERVED_LEN
            invariant
                out@.len() == 20 + j,
                forall|k: int| 20 <= k < out@.len() ==> out@[k] == 0u8,
                out@.take(20) == magic() + spec_u32_to_le_bytes(VERSION) + spec_u64_to_le_bytes(
                    self.records.len() as u64,
                ) + spec_u32_to_le_bytes(self.dim),
        {
            let ghost before = out@;
            out.push(0u8);
            assert(out@.take(20) =~= before.take(20));
        }
        assert(out@ =~= encode_header(self.dim, self.records.len() as u64));
        let ghost header = out@;
        let n = self.records.len();
        for i in 0..n
            invariant
                n == self.records@.len(),
                self@.wf(),
                out@ == header + encode_records(views(self.records@.take(i as int))),
        {
            assert(record_fits(self@.records[i as int], self.dim));
            append_record(&mut out, &self.records[i]);
            assert(views(self.records@.take(i + 1)).drop_last() =~= views(self.records@.take(i as int)));
        }
        assert(self.records@.take(n as int) =~= self.records@);
        out
    }
}

} // verus!
