//! The packed log: its record layout, the reader that replays it, and the
//! policy that says when appended bytes are to be synced.
//!
//! A record is a 16-byte header, the external id and six field lengths,
//! all little-endian, followed by the six fields without padding. A log is
//! records one after another, with no header, footer or checksum. A record
//! that is cut short ends the log.

use vstd::prelude::*;
use crate::le::{
    bytes16, bytes32, le16_at, le32_at, lemma_le16_roundtrip, lemma_le32_roundtrip, put_bytes,
    put_u16, put_u32, read_u16, read_u32,
};
use crate::text::copy_range;

verus! {

/// Length of a record header: the id and six 16-bit field lengths.
pub const PACK_HEADER_LEN: usize = 16;

/// When appended bytes are synced to stable storage.
#[derive(Clone, Copy, Debug)]
pub enum SyncMode {
    /// After every record.
    Always,
    /// Once this many bytes are waiting.
    CoalesceBytes(usize),
    /// Never; the operating system decides.
    Never,
}

/// One record of the log.
pub struct PackRec {
    pub id: u32,
    pub search: Vec<u8>,
    pub title: Vec<u8>,
    pub author: Vec<u8>,
    pub genres: Vec<u8>,
    pub url: Vec<u8>,
    pub uri: Vec<u8>,
}

/// What a record holds, as plain values.
pub struct RecView {
    pub id: u32,
    pub search: Seq<u8>,
    pub title: Seq<u8>,
    pub author: Seq<u8>,
    pub genres: Seq<u8>,
    pub url: Seq<u8>,
    pub uri: Seq<u8>,
}

impl View for PackRec {
    type V = RecView;

    open spec fn view(&self) -> RecView {
        RecView {
            id: self.id,
            search: self.search@,
            title: self.title@,
            author: self.author@,
            genres: self.genres@,
            url: self.url@,
            uri: self.uri@,
        }
    }
}

/// The length of a field as the header stores it: its low 16 bits.
pub open spec fn len16(s: Seq<u8>) -> u16 {
    (s.len() % 65536) as u16
}

/// Every field is short enough for its length to fit the header.
pub open spec fn fits(r: RecView) -> bool {
    &&& r.search.len() <= 65535
    &&& r.title.len() <= 65535
    &&& r.author.len() <= 65535
    &&& r.genres.len() <= 65535
    &&& r.url.len() <= 65535
    &&& r.uri.len() <= 65535
}

/// The header of a record.
#[verifier::opaque]
pub open spec fn header_bytes(r: RecView) -> Seq<u8> {
    bytes32(r.id) + bytes16(len16(r.search)) + bytes16(len16(r.title)) + bytes16(len16(r.author))
        + bytes16(len16(r.genres)) + bytes16(len16(r.url)) + bytes16(len16(r.uri))
}

/// The fields of a record, one after another.
#[verifier::opaque]
pub open spec fn body_bytes(r: RecView) -> Seq<u8> {
    r.search + r.title + r.author + r.genres + r.url + r.uri
}

/// The bytes of a record in the log.
pub open spec fn record_bytes(r: RecView) -> Seq<u8> {
    header_bytes(r) + body_bytes(r)
}

/// The bytes of a log that holds the given records in order.
pub open spec fn log_bytes(recs: Seq<RecView>) -> Seq<u8>
    decreases recs.len(),
{
    if recs.len() == 0 {
        Seq::empty()
    } else {
        record_bytes(recs[0]) + log_bytes(recs.drop_first())
    }
}

/// The record that starts at `pos`, with the position after it; `None`
/// when the bytes from `pos` on do not hold a whole record.
pub open spec fn record_at(s: Seq<u8>, pos: int) -> Option<(RecView, int)> {
    if pos < 0 || pos + 16 > s.len() {
        None
    } else {
        let a0 = pos + 16;
        let a1 = a0 + le16_at(s, pos + 4);
        let a2 = a1 + le16_at(s, pos + 6);
        let a3 = a2 + le16_at(s, pos + 8);
        let a4 = a3 + le16_at(s, pos + 10);
        let a5 = a4 + le16_at(s, pos + 12);
        let a6 = a5 + le16_at(s, pos + 14);
        if a6 > s.len() {
            None
        } else {
            Some(
                (
                    RecView {
                        id: le32_at(s, pos) as u32,
                        search: s.subrange(a0, a1),
                        title: s.subrange(a1, a2),
                        author: s.subrange(a2, a3),
                        genres: s.subrange(a3, a4),
                        url: s.subrange(a4, a5),
                        uri: s.subrange(a5, a6),
                    },
                    a6,
                ),
            )
        }
    }
}

/// The records of the log `s` from `pos` on, up to the first position that
/// does not hold a whole record.
pub open spec fn records_from(s: Seq<u8>, pos: int) -> Seq<RecView>
    decreases s.len() - pos,
{
    match record_at(s, pos) {
        Some((r, next)) => if pos < next <= s.len() {
            seq![r] + records_from(s, next)
        } else {
            Seq::empty()
        },
        None => Seq::empty(),
    }
}

proof fn lemma_header_layout(r: RecView)
    ensures
        header_bytes(r).len() == 16,
        header_bytes(r).subrange(0, 4) == bytes32(r.id),
        header_bytes(r).subrange(4, 6) == bytes16(len16(r.search)),
        header_bytes(r).subrange(6, 8) == bytes16(len16(r.title)),
        header_bytes(r).subrange(8, 10) == bytes16(len16(r.author)),
        header_bytes(r).subrange(10, 12) == bytes16(len16(r.genres)),
        header_bytes(r).subrange(12, 14) == bytes16(len16(r.url)),
        header_bytes(r).subrange(14, 16) == bytes16(len16(r.uri)),
{
    reveal(header_bytes);
    let h = header_bytes(r);
    assert(h.subrange(0, 4) =~= bytes32(r.id));
    assert(h.subrange(4, 6) =~= bytes16(len16(r.search)));
    assert(h.subrange(6, 8) =~= bytes16(len16(r.title)));
    assert(h.subrange(8, 10) =~= bytes16(len16(r.author)));
    assert(h.subrange(10, 12) =~= bytes16(len16(r.genres)));
    assert(h.subrange(12, 14) =~= bytes16(len16(r.url)));
    assert(h.subrange(14, 16) =~= bytes16(len16(r.uri)));
}

proof fn lemma_header_read(s: Seq<u8>, pos: int, r: RecView)
    requires
        0 <= pos,
        pos + 16 <= s.len(),
        s.subrange(pos, pos + 16) == header_bytes(r),
    ensures
        le32_at(s, pos) == r.id,
        le16_at(s, pos + 4) == len16(r.search),
        le16_at(s, pos + 6) == len16(r.title),
        le16_at(s, pos + 8) == len16(r.author),
        le16_at(s, pos + 10) == len16(r.genres),
        le16_at(s, pos + 12) == len16(r.url),
        le16_at(s, pos + 14) == len16(r.uri),
{
    let h = header_bytes(r);
    lemma_header_layout(r);
    let w = s.subrange(pos, pos + 16);
    assert(s.subrange(pos, pos + 4) =~= w.subrange(0, 4));
    assert(s.subrange(pos + 4, pos + 6) =~= w.subrange(4, 6));
    assert(s.subrange(pos + 6, pos + 8) =~= w.subrange(6, 8));
    assert(s.subrange(pos + 8, pos + 10) =~= w.subrange(8, 10));
    assert(s.subrange(pos + 10, pos + 12) =~= w.subrange(10, 12));
    assert(s.subrange(pos + 12, pos + 14) =~= w.subrange(12, 14));
    assert(s.subrange(pos + 14, pos + 16) =~= w.subrange(14, 16));
    lemma_le32_roundtrip(r.id, s, pos);
    lemma_le16_roundtrip(len16(r.search), s, pos + 4);
    lemma_le16_roundtrip(len16(r.title), s, pos + 6);
    lemma_le16_roundtrip(len16(r.author), s, pos + 8);
    lemma_le16_roundtrip(len16(r.genres), s, pos + 10);
    lemma_le16_roundtrip(len16(r.url), s, pos + 12);
    lemma_le16_roundtrip(len16(r.uri), s, pos + 14);
}

proof fn lemma_body_read(s: Seq<u8>, a0: int, r: RecView)
    requires
        0 <= a0,
        a0 + body_bytes(r).len() <= s.len(),
        s.subrange(a0, a0 + body_bytes(r).len()) == body_bytes(r),
    ensures
        ({
            let a1 = a0 + r.search.len();
            let a2 = a1 + r.title.len();
            let a3 = a2 + r.author.len();
            let a4 = a3 + r.genres.len();
            let a5 = a4 + r.url.len();
            let a6 = a5 + r.uri.len();
            &&& a6 == a0 + body_bytes(r).len()
            &&& s.subrange(a0, a1) == r.search
            &&& s.subrange(a1, a2) == r.title
            &&& s.subrange(a2, a3) == r.author
            &&& s.subrange(a3, a4) == r.genres
            &&& s.subrange(a4, a5) == r.url
            &&& s.subrange(a5, a6) == r.uri
        }),
{
    reveal(body_bytes);
    let b = body_bytes(r);
    let w = s.subrange(a0, a0 + b.len());
    let a1 = a0 + r.search.len();
    let a2 = a1 + r.title.len();
    let a3 = a2 + r.author.len();
    let a4 = a3 + r.genres.len();
    let a5 = a4 + r.url.len();
    let a6 = a5 + r.uri.len();
    assert(s.subrange(a0, a1) =~= w.subrange(0, a1 - a0));
    assert(s.subrange(a1, a2) =~= w.subrange(a1 - a0, a2 - a0));
    assert(s.subrange(a2, a3) =~= w.subrange(a2 - a0, a3 - a0));
    assert(s.subrange(a3, a4) =~= w.subrange(a3 - a0, a4 - a0));
    assert(s.subrange(a4, a5) =~= w.subrange(a4 - a0, a5 - a0));
    assert(s.subrange(a5, a6) =~= w.subrange(a5 - a0, a6 - a0));
    assert(b.subrange(0, a1 - a0) =~= r.search);
    assert(b.subrange(a1 - a0, a2 - a0) =~= r.title);
    assert(b.subrange(a2 - a0, a3 - a0) =~= r.author);
    assert(b.subrange(a3 - a0, a4 - a0) =~= r.genres);
    assert(b.subrange(a4 - a0, a5 - a0) =~= r.url);
    assert(b.subrange(a5 - a0, a6 - a0) =~= r.uri);
}

/// A record written at `pos` is the record read at `pos`.
pub proof fn lemma_record_at_written(s: Seq<u8>, pos: int, r: RecView)
    requires
        fits(r),
        0 <= pos,
        pos + record_bytes(r).len() <= s.len(),
        s.subrange(pos, pos + record_bytes(r).len()) == record_bytes(r),
    ensures
        record_bytes(r).len() == 16 + body_bytes(r).len(),
        record_at(s, pos) == Some((r, pos + record_bytes(r).len())),
{
    let rb = record_bytes(r);
    let h = header_bytes(r);
    let b = body_bytes(r);
    lemma_header_layout(r);
    let w = s.subrange(pos, pos + rb.len());
    assert(s.subrange(pos, pos + 16) =~= w.subrange(0, 16));
    assert(rb.subrange(0, 16) =~= h);
    assert(s.subrange(pos + 16, pos + 16 + b.len()) =~= w.subrange(16, 16 + b.len() as int));
    assert(rb.subrange(16, 16 + b.len() as int) =~= b);
    lemma_header_read(s, pos, r);
    lemma_body_read(s, pos + 16, r);
}

/// Reading a log whose tail from `pos` on is the bytes of `recs` yields
/// `recs`.
pub proof fn lemma_read_back_from(recs: Seq<RecView>, s: Seq<u8>, pos: int)
    requires
        forall|i: int| 0 <= i < recs.len() ==> fits(#[trigger] recs[i]),
        0 <= pos <= s.len(),
        s.subrange(pos, s.len() as int) == log_bytes(recs),
    ensures
        records_from(s, pos) == recs,
    decreases recs.len(),
{
    if recs.len() == 0 {
        assert(log_bytes(recs).len() == 0);
        assert(s.subrange(pos, s.len() as int).len() == s.len() - pos);
        assert(pos == s.len());
        assert(records_from(s, pos) =~= recs);
    } else {
        let r = recs[0];
        let rb = record_bytes(r);
        let rest = recs.drop_first();
        let tail = s.subrange(pos, s.len() as int);
        assert(tail.len() == rb.len() + log_bytes(rest).len());
        assert(s.subrange(pos, pos + rb.len()) =~= rb) by {
            assert forall|j: int| 0 <= j < rb.len() implies s[pos + j] == rb[j] by {
                assert(tail[j] == s[pos + j]);
            }
        }
        lemma_record_at_written(s, pos, r);
        let next = pos + rb.len();
        assert(s.subrange(next, s.len() as int) =~= log_bytes(rest)) by {
            assert forall|j: int| 0 <= j < log_bytes(rest).len() implies s[next + j] == log_bytes(
                rest,
            )[j] by {
                assert(tail[rb.len() + j] == s[next + j]);
            }
        }
        assert forall|i: int| 0 <= i < rest.len() implies fits(#[trigger] rest[i]) by {
            assert(rest[i] == recs[i + 1]);
        }
        lemma_read_back_from(rest, s, next);
        assert(seq![r] + rest =~= recs);
    }
}

/// Writing records and reading the log back yields the same records in
/// the same order, when every field fits its 16-bit length.
pub proof fn lemma_log_roundtrip(recs: Seq<RecView>)
    requires
        forall|i: int| 0 <= i < recs.len() ==> fits(#[trigger] recs[i]),
    ensures
        records_from(log_bytes(recs), 0) == recs,
{
    let s = log_bytes(recs);
    assert(s.subrange(0, s.len() as int) =~= s);
    lemma_read_back_from(recs, s, 0);
}

/// The bytes of one record. A field longer than 65535 bytes is written
/// whole, with the low 16 bits of its length in the header.
pub fn encode_pack(
    id: u32,
    search: &[u8],
    title: &[u8],
    author: &[u8],
    genres: &[u8],
    url: &[u8],
    uri: &[u8],
) -> (out: Vec<u8>)
    ensures
        out@ == record_bytes(
            (RecView {
                id,
                search: search@,
                title: title@,
                author: author@,
                genres: genres@,
                url: url@,
                uri: uri@,
            }),
        ),
{
    let mut out: Vec<u8> = Vec::new();
    put_u32(&mut out, id);
    put_u16(&mut out, (search.len() % 65536) as u16);
    put_u16(&mut out, (title.len() % 65536) as u16);
    put_u16(&mut out, (author.len() % 65536) as u16);
    put_u16(&mut out, (genres.len() % 65536) as u16);
    put_u16(&mut out, (url.len() % 65536) as u16);
    put_u16(&mut out, (uri.len() % 65536) as u16);
    let ghost head = out@;
    put_bytes(&mut out, search);
    put_bytes(&mut out, title);
    put_bytes(&mut out, author);
    put_bytes(&mut out, genres);
    put_bytes(&mut out, url);
    put_bytes(&mut out, uri);
    proof {
        let r = RecView {
            id,
            search: search@,
            title: title@,
            author: author@,
            genres: genres@,
            url: url@,
            uri: uri@,
        };
        reveal(header_bytes);
        reveal(body_bytes);
        assert(Seq::<u8>::empty() + bytes32(id) =~= bytes32(id));
        assert(head =~= header_bytes(r));
        assert(out@ =~= header_bytes(r) + body_bytes(r));
    }
    out
}

/// What the writer does for one record.
pub struct WalAppend {
    /// The bytes to append to the log file.
    pub bytes: Vec<u8>,
    /// Whether to sync the file after appending them.
    pub sync: bool,
}

/// The writer's side of the log: how many appended bytes wait for a sync,
/// and the policy that triggers one.
pub struct PackWal {
    pub unsynced: usize,
    pub sync: SyncMode,
}

/// Bytes waiting after `n` more were appended; the count stops at the
/// largest value it can hold.
pub open spec fn waiting_after(unsynced: usize, n: int) -> usize {
    if unsynced + n > usize::MAX {
        usize::MAX
    } else {
        (unsynced + n) as usize
    }
}

/// Whether a sync is due with `waiting` bytes unsynced.
pub open spec fn sync_due(mode: SyncMode, waiting: usize) -> bool {
    match mode {
        SyncMode::Always => true,
        SyncMode::CoalesceBytes(threshold) => waiting >= threshold,
        SyncMode::Never => false,
    }
}

impl PackWal {
    pub fn new(sync: SyncMode) -> (w: PackWal)
        ensures
            w.unsynced == 0,
            w.sync == sync,
    {
        PackWal { unsynced: 0, sync }
    }

    /// Counts `n` appended bytes and says whether a sync is due.
    pub fn wrote(&mut self, n: usize) -> (due: bool)
        ensures
            final(self).sync == old(self).sync,
            final(self).unsynced == waiting_after(old(self).unsynced, n as int),
            due == sync_due(old(self).sync, final(self).unsynced),
    {
        self.unsynced = if n > usize::MAX - self.unsynced {
            usize::MAX
        } else {
            self.unsynced + n
        };
        match self.sync {
            SyncMode::Always => true,
            SyncMode::CoalesceBytes(threshold) => self.unsynced >= threshold,
            SyncMode::Never => false,
        }
    }

    /// Notes that the file was synced: nothing is waiting.
    pub fn synced(&mut self)
        ensures
            final(self).sync == old(self).sync,
            final(self).unsynced == 0,
    {
        self.unsynced = 0;
    }

    /// Prepares one record for the log: its bytes, counted as waiting, and
    /// whether the file is to be synced once they are appended. The count
    /// starts again at zero when the caller reports the sync with `synced`.
    pub fn append_pack(
        &mut self,
        id: u32,
        search: &[u8],
        title: &[u8],
        author: &[u8],
        genres: &[u8],
        url: &[u8],
        uri: &[u8],
    ) -> (step: WalAppend)
        ensures
            step.bytes@ == record_bytes(
                (RecView {
                    id,
                    search: search@,
                    title: title@,
                    author: author@,
                    genres: genres@,
                    url: url@,
                    uri: uri@,
                }),
            ),
            final(self).sync == old(self).sync,
            final(self).unsynced == waiting_after(old(self).unsynced, step.bytes@.len() as int),
            step.sync == sync_due(old(self).sync, final(self).unsynced),
    {
        let bytes = encode_pack(id, search, title, author, genres, url, uri);
        let due = self.wrote(bytes.len());
        WalAppend { bytes, sync: due }
    }
}

/// Replays a log held in memory, record by record.
pub struct PackReader {
    pub buf: Vec<u8>,
    pub pos: usize,
}

impl PackReader {
    /// A reader at the start of the log `buf`.
    pub fn new(buf: Vec<u8>) -> (r: PackReader)
        ensures
            r.buf == buf,
            r.pos == 0,
    {
        PackReader { buf, pos: 0 }
    }

    /// The next record, or `None` at the end of the log. A record that is
    /// cut short is the end of the log: the reader stays in front of it.
    pub fn next(&mut self) -> (rec: Option<PackRec>)
        ensures
            final(self).buf == old(self).buf,
            match record_at(old(self).buf@, old(self).pos as int) {
                Some((r, next)) => rec is Some && rec->0@ == r && final(self).pos == next,
                None => rec is None && final(self).pos == old(self).pos,
            },
    {
        match read_record(self.buf.as_slice(), self.pos) {
            Some((rec, next)) => {
                self.pos = next;
                Some(rec)
            },
            None => None,
        }
    }
}

/// Reads the record that starts at `pos`, and says where the next one
/// starts; `None` when the bytes from `pos` on do not hold a whole record.
pub fn read_record(b: &[u8], pos: usize) -> (r: Option<(PackRec, usize)>)
    ensures
        match record_at(b@, pos as int) {
            Some((rec, next)) => r is Some && ({
                let (got, after) = r->Some_0;
                got@ == rec && after == next
            }) && pos + 16 <= next <= b@.len(),
            None => r is None,
        },
{
    let n = b.len();
    if pos > n || n - pos < PACK_HEADER_LEN {
        return None;
    }
    let id = read_u32(b, pos);
    let sl = read_u16(b, pos + 4) as usize;
    let tl = read_u16(b, pos + 6) as usize;
    let al = read_u16(b, pos + 8) as usize;
    let gl = read_u16(b, pos + 10) as usize;
    let ul = read_u16(b, pos + 12) as usize;
    let rl = read_u16(b, pos + 14) as usize;
    let need = sl + tl + al + gl + ul + rl;
    let a0 = pos + PACK_HEADER_LEN;
    if n - a0 < need {
        return None;
    }
    let a1 = a0 + sl;
    let a2 = a1 + tl;
    let a3 = a2 + al;
    let a4 = a3 + gl;
    let a5 = a4 + ul;
    let a6 = a5 + rl;
    let rec = PackRec {
        id,
        search: copy_range(b, a0, a1),
        title: copy_range(b, a1, a2),
        author: copy_range(b, a2, a3),
        genres: copy_range(b, a3, a4),
        url: copy_range(b, a4, a5),
        uri: copy_range(b, a5, a6),
    };
    Some((rec, a6))
}

} // verus!
