//! The search request and the hits it produces.

use vstd::prelude::*;
use vstd::slice::slice_subrange;
use crate::index::{DocMeta, DocView, IndexView};
use crate::le::{bytes16, bytes32, le16_at, le64_at, put_u16, put_u32, read_u16, read_u64};
use crate::postings::head;

verus! {

/// Request flag: add the fuzzy bonus to scores.
pub const FLAG_FUZZY_JACCARD: u16 = 1;

/// Request flag: include metadata in the response.
pub const FLAG_WITH_META: u16 = 2;

/// Length of the fixed part of a search request.
pub const QUERY_FIXED_LEN: usize = 36;

/// The fixed part of a search request.
#[derive(Clone, Copy)]
pub struct Query256 {
    /// Number of hits wanted.
    pub k: u16,
    pub flags: u16,
    /// The 256-bit query signature.
    pub sig: [u64; 4],
}

impl Query256 {
    /// Reads the fixed part of a request: `k`, `flags` and four signature
    /// lanes, all little-endian.
    pub fn from_bytes(b: &[u8]) -> (q: Query256)
        requires
            b@.len() >= QUERY_FIXED_LEN,
        ensures
            q.k == le16_at(b@, 0),
            q.flags == le16_at(b@, 2),
            forall|i: int| 0 <= i < 4 ==> (#[trigger] q.sig@[i]) == le64_at(b@, 4 + 8 * i),
    {
        let k = read_u16(b, 0);
        let flags = read_u16(b, 2);
        let sig: [u64; 4] = [read_u64(b, 4), read_u64(b, 12), read_u64(b, 20), read_u64(b, 28)];
        Query256 { k, flags, sig }
    }
}

/// One search result: a row of a segment and its score.
///
/// The score is a 32-bit key that orders as scores do: a larger key is a
/// better score.
#[derive(Clone, Copy, Debug, PartialEq, Eq)]
pub struct Hit {
    pub seg: u16,
    pub row: u32,
    pub score: u32,
}

/// The order of hits: by score, then by row, then by segment.
pub open spec fn hit_lt(a: Hit, b: Hit) -> bool {
    a.score < b.score || (a.score == b.score && (a.row < b.row || (a.row == b.row && a.seg
        < b.seg)))
}

impl Hit {
    /// Whether `self` comes before `other` in the order of hits.
    pub fn precedes(&self, other: &Hit) -> (r: bool)
        ensures
            r == hit_lt(*self, *other),
    {
        self.score < other.score || (self.score == other.score && (self.row < other.row || (
        self.row == other.row && self.seg < other.seg)))
    }
}

/// The raw query text of a request, or `None` when the request is
/// malformed: shorter than the fixed part, or with a text length that the
/// bytes after it do not cover. A request of exactly the fixed part has
/// an empty text.
pub open spec fn request_text(b: Seq<u8>) -> Option<Seq<u8>> {
    if b.len() < QUERY_FIXED_LEN {
        None
    } else if b.len() == QUERY_FIXED_LEN {
        Some(Seq::empty())
    } else if b.len() < QUERY_FIXED_LEN + 2 {
        None
    } else if b.len() < QUERY_FIXED_LEN + 2 + le16_at(b, QUERY_FIXED_LEN as int) {
        None
    } else {
        Some(
            b.subrange(
                QUERY_FIXED_LEN + 2,
                QUERY_FIXED_LEN + 2 + le16_at(b, QUERY_FIXED_LEN as int),
            ),
        )
    }
}

/// Splits a search request into its fixed part and its raw query text.
pub fn parse_query_and_text(buf: &[u8]) -> (r: Result<(Query256, &[u8]), ()>)
    ensures
        r is Ok <==> request_text(buf@) is Some,
        r is Ok ==> {
            let (q, text) = r->Ok_0;
            &&& text@ == request_text(buf@)->0
            &&& q.k == le16_at(buf@, 0)
            &&& q.flags == le16_at(buf@, 2)
            &&& forall|i: int| 0 <= i < 4 ==> (#[trigger] q.sig@[i]) == le64_at(buf@, 4 + 8 * i)
        },
{
    let n = buf.len();
    if n < QUERY_FIXED_LEN {
        return Err(());
    }
    let q = Query256::from_bytes(buf);
    if n == QUERY_FIXED_LEN {
        let text = slice_subrange(buf, 0, 0);
        assert(text@ =~= Seq::<u8>::empty());
        return Ok((q, text));
    }
    if n < QUERY_FIXED_LEN + 2 {
        return Err(());
    }
    let qlen = read_u16(buf, QUERY_FIXED_LEN) as usize;
    if n - (QUERY_FIXED_LEN + 2) < qlen {
        return Err(());
    }
    let text = slice_subrange(buf, QUERY_FIXED_LEN + 2, QUERY_FIXED_LEN + 2 + qlen);
    Ok((q, text))
}

/// `bytes::BytesMut`, the growable buffer a response is assembled in. Its
/// inside is not looked at: what it holds is `buf_bytes`.
#[verifier::external_type_specification]
#[verifier::external_body]
pub struct ExBytesMut(bytes::BytesMut);

/// `bytes::Bytes`, the immutable buffer a response is handed out in. Its
/// inside is not looked at: what it holds is `frozen_bytes`.
#[verifier::external_type_specification]
#[verifier::external_body]
pub struct ExBytes(bytes::Bytes);

/// The bytes that a `bytes::BytesMut` holds, first to last.
pub uninterp spec fn buf_bytes(b: bytes::BytesMut) -> Seq<u8>;

/// The bytes that a `bytes::Bytes` holds, first to last.
pub uninterp spec fn frozen_bytes(b: bytes::Bytes) -> Seq<u8>;

/// `BytesMut::new` makes a buffer of length zero.
#[verifier::external_body]
fn buf_new() -> (b: bytes::BytesMut)
    ensures
        buf_bytes(b) == Seq::<u8>::empty(),
{
    bytes::BytesMut::new()
}

/// `BytesMut::extend_from_slice` appends the slice to the buffer. It
/// reserves room first, which fails only when the new length does not fit
/// in `usize`.
#[verifier::external_body]
fn buf_put(b: &mut bytes::BytesMut, s: &[u8])
    requires
        buf_bytes(*old(b)).len() + s@.len() <= usize::MAX,
    ensures
        buf_bytes(*final(b)) == buf_bytes(*old(b)) + s@,
{
    b.extend_from_slice(s);
}

/// `BytesMut::freeze` turns the buffer into an immutable one with the same
/// contents.
#[verifier::external_body]
fn buf_freeze(b: bytes::BytesMut) -> (r: bytes::Bytes)
    ensures
        frozen_bytes(r) == buf_bytes(b),
{
    b.freeze()
}

/// Longest metadata string that a response carries; longer ones are cut.
pub const META_FIELD_MAX: usize = 65535;

/// The metadata of a hit in a response: five 16-bit lengths, then the
/// five strings, each cut to 65535 bytes.
pub open spec fn meta_bytes(d: DocView) -> Seq<u8> {
    let t = head(d.title, META_FIELD_MAX as int);
    let a = head(d.author, META_FIELD_MAX as int);
    let g = head(d.genres, META_FIELD_MAX as int);
    let u = head(d.url, META_FIELD_MAX as int);
    let r = head(d.uri, META_FIELD_MAX as int);
    bytes16(t.len() as u16) + bytes16(a.len() as u16) + bytes16(g.len() as u16) + bytes16(
        u.len() as u16,
    ) + bytes16(r.len() as u16) + t + a + g + u + r
}

/// The hit names a row that the view holds.
pub open spec fn hit_in_view(view: &IndexView, h: Hit) -> bool {
    &&& h.seg < view.segments@.len()
    &&& h.row < view.segments@[h.seg as int].meta@.len()
}

/// The metadata of the row that a hit names.
pub open spec fn hit_doc(view: &IndexView, h: Hit) -> DocView {
    view.segments@[h.seg as int].meta@[h.row as int]@
}

/// One hit in a response: external id, score, and the metadata if asked
/// for.
pub open spec fn hit_bytes(view: &IndexView, h: Hit, with_meta: bool) -> Seq<u8> {
    bytes32(hit_doc(view, h).id) + bytes32(h.score) + if with_meta {
        meta_bytes(hit_doc(view, h))
    } else {
        Seq::empty()
    }
}

/// The hits of a response, one after another.
pub open spec fn hits_bytes(view: &IndexView, hits: Seq<Hit>, with_meta: bool) -> Seq<u8>
    decreases hits.len(),
{
    if hits.len() == 0 {
        Seq::empty()
    } else {
        hits_bytes(view, hits.drop_last(), with_meta) + hit_bytes(view, hits.last(), with_meta)
    }
}

/// A search response: the number of hits, then the hits.
pub open spec fn response_bytes(view: &IndexView, hits: Seq<Hit>, with_meta: bool) -> Seq<u8> {
    bytes32(hits.len() as u32) + hits_bytes(view, hits, with_meta)
}

/// Appends the first bytes of `src`, at most 65535 of them.
fn put_cut(out: &mut Vec<u8>, src: &Vec<u8>)
    ensures
        final(out)@ == old(out)@ + head(src@, META_FIELD_MAX as int),
{
    let ghost start = out@;
    let n = if src.len() < META_FIELD_MAX {
        src.len()
    } else {
        META_FIELD_MAX
    };
    let mut i: usize = 0;
    while i < n
        invariant
            n <= src@.len(),
            i <= n,
            out@ == start + src@.take(i as int),
        decreases n - i,
    {
        out.push(src[i]);
        i = i + 1;
        assert(out@ =~= start + src@.take(i as int));
    }
    proof {
        assert(src@.take(src@.len() as int) =~= src@);
        assert(src@.take(0) =~= Seq::<u8>::empty());
        assert(start + Seq::<u8>::empty() =~= start);
    }
}

/// Length of a metadata string as a response carries it.
fn cut_len(src: &Vec<u8>) -> (n: u16)
    ensures
        n == head(src@, META_FIELD_MAX as int).len(),
{
    if src.len() < META_FIELD_MAX {
        src.len() as u16
    } else {
        65535
    }
}

/// The bytes of one hit in a response.
pub fn encode_hit(view: &IndexView, h: Hit, with_meta: bool) -> (out: Vec<u8>)
    requires
        hit_in_view(view, h),
    ensures
        out@ == hit_bytes(view, h, with_meta),
{
    let m: &DocMeta = &view.segments[h.seg as usize].meta[h.row as usize];
    let mut out: Vec<u8> = Vec::new();
    put_u32(&mut out, m.id);
    put_u32(&mut out, h.score);
    if with_meta {
        put_u16(&mut out, cut_len(&m.title));
        put_u16(&mut out, cut_len(&m.author));
        put_u16(&mut out, cut_len(&m.genres));
        put_u16(&mut out, cut_len(&m.url));
        put_u16(&mut out, cut_len(&m.uri));
        put_cut(&mut out, &m.title);
        put_cut(&mut out, &m.author);
        put_cut(&mut out, &m.genres);
        put_cut(&mut out, &m.url);
        put_cut(&mut out, &m.uri);
        assert(out@ =~= hit_bytes(view, h, with_meta));
    } else {
        assert(out@ =~= hit_bytes(view, h, with_meta));
    }
    out
}

/// Encodes the hits of a query as a search response.
pub fn encode_hits_binary(view: &IndexView, hits: &[Hit], with_meta: bool) -> (out: bytes::Bytes)
    requires
        forall|i: int| 0 <= i < hits@.len() ==> hit_in_view(view, #[trigger] hits@[i]),
        hits@.len() <= u32::MAX,
        response_bytes(view, hits@, with_meta).len() <= usize::MAX,
    ensures
        frozen_bytes(out) == response_bytes(view, hits@, with_meta),
{
    let mut buf = buf_new();
    let mut count: Vec<u8> = Vec::new();
    let n = hits.len();
    put_u32(&mut count, n as u32);
    proof {
        assert(count@ =~= bytes32(n as u32));
        lemma_hits_bytes_grow(view, hits@, with_meta, 0);
        assert(hits@.take(0) =~= Seq::<Hit>::empty());
    }
    buf_put(&mut buf, count.as_slice());
    let mut i: usize = 0;
    while i < n
        invariant
            n == hits@.len(),
            i <= n,
            forall|j: int| 0 <= j < hits@.len() ==> hit_in_view(view, #[trigger] hits@[j]),
            response_bytes(view, hits@, with_meta).len() <= usize::MAX,
            buf_bytes(buf) == bytes32(n as u32) + hits_bytes(view, hits@.take(i as int), with_meta),
        decreases n - i,
    {
        let piece = encode_hit(view, hits[i], with_meta);
        proof {
            let cur = hits@.take(i + 1);
            assert(cur.drop_last() =~= hits@.take(i as int));
            assert(cur.last() == hits@[i as int]);
            lemma_hits_bytes_grow(view, hits@, with_meta, i + 1);
            assert(bytes32(n as u32) + hits_bytes(view, cur, with_meta) =~= (bytes32(n as u32)
                + hits_bytes(view, hits@.take(i as int), with_meta)) + piece@);
        }
        buf_put(&mut buf, piece.as_slice());
        i = i + 1;
    }
    proof {
        assert(hits@.take(n as int) =~= hits@);
    }
    buf_freeze(buf)
}

/// Most bytes that one hit takes in a response: id, score, five lengths
/// and five strings of 65535 bytes.
pub const HIT_BYTES_MAX: usize = 327693;

/// A response is no longer than its count and as many longest hits as it
/// has; without metadata a hit takes eight bytes.
pub proof fn lemma_response_len(view: &IndexView, hits: Seq<Hit>, with_meta: bool)
    ensures
        with_meta ==> response_bytes(view, hits, with_meta).len() <= 4 + hits.len()
            * HIT_BYTES_MAX,
        !with_meta ==> response_bytes(view, hits, with_meta).len() == 4 + hits.len() * 8,
    decreases hits.len(),
{
    if hits.len() > 0 {
        let init = hits.drop_last();
        lemma_response_len(view, init, with_meta);
        let d = hit_doc(view, hits.last());
        assert(hit_bytes(view, hits.last(), with_meta).len() <= HIT_BYTES_MAX);
        assert(!with_meta ==> hit_bytes(view, hits.last(), with_meta).len() == 8);
        assert(hits.len() * HIT_BYTES_MAX == init.len() * HIT_BYTES_MAX + HIT_BYTES_MAX)
            by (nonlinear_arith)
            requires
                hits.len() == init.len() + 1,
        ;
    }
}

/// The encoding of the first hits is no longer than the encoding of all.
pub proof fn lemma_hits_bytes_grow(view: &IndexView, hits: Seq<Hit>, with_meta: bool, i: int)
    requires
        0 <= i <= hits.len(),
    ensures
        hits_bytes(view, hits.take(i), with_meta).len() <= hits_bytes(view, hits, with_meta).len(),
    decreases hits.len() - i,
{
    if i < hits.len() {
        lemma_hits_bytes_grow(view, hits, with_meta, i + 1);
        let cur = hits.take(i + 1);
        assert(cur.drop_last() =~= hits.take(i));
    } else {
        assert(hits.take(i) =~= hits);
    }
}

} // verus!
