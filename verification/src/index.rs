//! Sealed segments and the index view over them.
//!
//! A segment is a read-only columnar block: one 256-bit signature, one
//! population count and one metadata record per row, plus posting lists
//! that say which rows have a signature bit, a token with a given first
//! byte, a token with a given three-character prefix, or a short token with
//! a given hash.

use std::sync::Arc;
use vstd::prelude::*;
use crate::postings::{ascending, keys_ascending, lemma_ascending_same_members};
use crate::qgram::sig_bit;
use crate::simd::popcount_sig;
use crate::text::{normalized, prefix3, token_hash, tokens, PREF3_SIZE};

verus! {

/// Metadata stored with a row. Only `title`, `author` and `genres` feed the
/// prefix and short-token postings.
#[derive(Clone, Debug)]
pub struct DocMeta {
    pub id: u32,
    pub title: Vec<u8>,
    pub author: Vec<u8>,
    pub genres: Vec<u8>,
    pub url: Vec<u8>,
    pub uri: Vec<u8>,
}

/// What a metadata record holds, as plain values.
pub struct DocView {
    pub id: u32,
    pub title: Seq<u8>,
    pub author: Seq<u8>,
    pub genres: Seq<u8>,
    pub url: Seq<u8>,
    pub uri: Seq<u8>,
}

impl View for DocMeta {
    type V = DocView;

    open spec fn view(&self) -> DocView {
        DocView {
            id: self.id,
            title: self.title@,
            author: self.author@,
            genres: self.genres@,
            url: self.url@,
            uri: self.uri@,
        }
    }
}

/// One row of a segment or of a builder: its signature lanes and its
/// metadata.
pub struct Row {
    pub sig: Seq<u64>,
    pub doc: DocView,
}

/// Something a row can have, and a posting list can be about.
pub enum Feature {
    /// Signature bit `b` is set.
    Bit(u16),
    /// Some token starts with this byte.
    First(u8),
    /// Some token of three or more bytes starts with the prefix of this
    /// bucket.
    Three(usize),
    /// Some token of at most six bytes has this hash.
    Short(u64),
}

/// The normalized text that prefix and short-token postings are built
/// from: title, author and genres, separated by single spaces.
pub open spec fn doc_text(d: DocView) -> Seq<u8> {
    normalized(d.title + seq![32u8] + d.author + seq![32u8] + d.genres)
}

/// Whether the token `t` has the feature `f`. No token has a `Bit`.
pub open spec fn tok_has(t: Seq<u8>, f: Feature) -> bool {
    match f {
        Feature::Bit(_) => false,
        Feature::First(c) => t.len() >= 1 && t[0] == c,
        Feature::Three(i) => t.len() >= 3 && prefix3(t[0], t[1], t[2]) == Some(i as int),
        Feature::Short(key) => t.len() <= 6 && token_hash(t) == key,
    }
}

/// Whether one of the tokens has the feature `f`.
pub open spec fn toks_have(toks: Seq<Seq<u8>>, f: Feature) -> bool {
    exists|k: int| 0 <= k < toks.len() && tok_has(#[trigger] toks[k], f)
}

/// Whether the row has the feature `f`.
pub open spec fn row_has(row: Row, f: Feature) -> bool {
    match f {
        Feature::Bit(b) => sig_bit(row.sig, b as int),
        _ => toks_have(tokens(doc_text(row.doc)), f),
    }
}

/// `list` is the posting list of `f` over `rows`: the strictly ascending
/// list of exactly the rows that have `f`.
pub open spec fn is_posting(list: Seq<u32>, rows: Seq<Row>, f: Feature) -> bool {
    &&& ascending(list)
    &&& forall|k: int|
        0 <= k < list.len() ==> (#[trigger] list[k]) < rows.len() && row_has(
            rows[list[k] as int],
            f,
        )
    &&& forall|r: int|
        0 <= r < rows.len() && row_has(#[trigger] rows[r], f) ==> list.contains(r as u32)
}

/// A row is on the posting list of a feature exactly when it has the
/// feature.
pub proof fn lemma_posting_members(list: Seq<u32>, rows: Seq<Row>, f: Feature, r: int)
    requires
        is_posting(list, rows, f),
        0 <= r < rows.len(),
        rows.len() <= u32::MAX,
    ensures
        list.contains(r as u32) <==> row_has(rows[r], f),
{
    if list.contains(r as u32) {
        let k = choose|k: int| 0 <= k < list.len() && list[k] == r as u32;
        assert(row_has(rows[list[k] as int], f));
    }
}

/// Rows and feature fix the posting list.
pub proof fn lemma_posting_unique(a: Seq<u32>, b: Seq<u32>, rows: Seq<Row>, f: Feature)
    requires
        is_posting(a, rows, f),
        is_posting(b, rows, f),
        rows.len() <= u32::MAX,
    ensures
        a == b,
{
    assert forall|x: u32| a.contains(x) <==> b.contains(x) by {
        if a.contains(x) {
            let k = choose|k: int| 0 <= k < a.len() && a[k] == x;
            assert(a[k] < rows.len());
            lemma_posting_members(a, rows, f, x as int);
            lemma_posting_members(b, rows, f, x as int);
        }
        if b.contains(x) {
            let k = choose|k: int| 0 <= k < b.len() && b[k] == x;
            assert(b[k] < rows.len());
            lemma_posting_members(a, rows, f, x as int);
            lemma_posting_members(b, rows, f, x as int);
        }
    }
    lemma_ascending_same_members(a, b);
}

/// A sealed block of rows with its postings.
pub struct Segment {
    /// Signature lane 0 of every row; `s1` to `s3` are the other lanes.
    pub s0: Vec<u64>,
    pub s1: Vec<u64>,
    pub s2: Vec<u64>,
    pub s3: Vec<u64>,
    /// Population count of every row's signature.
    pub pop: Vec<u16>,
    /// Metadata of every row.
    pub meta: Vec<DocMeta>,
    /// For each of the 256 signature bits, the rows that have it set.
    pub bit_postings: Vec<Vec<u32>>,
    /// Length of each bit posting list.
    pub bit_freq: Vec<u32>,
    /// For each byte, the rows with a token that starts with it.
    pub pref1: Vec<Vec<u32>>,
    /// For each base-36 three-character prefix, the rows with a token that
    /// starts with it.
    pub pref3: Vec<Vec<u32>>,
    /// Rows by hash of their tokens of at most six bytes, sorted by hash.
    pub full6: Vec<(u64, Vec<u32>)>,
}

impl Segment {
    /// The rows of the segment.
    pub open spec fn rows(&self) -> Seq<Row> {
        Seq::new(
            self.s0@.len(),
            |r: int|
                Row {
                    sig: seq![self.s0@[r], self.s1@[r], self.s2@[r], self.s3@[r]],
                    doc: self.meta@[r]@,
                },
        )
    }

    /// The columns are parallel, population counts are right, and every
    /// posting list holds exactly the rows it stands for.
    pub open spec fn wf(&self) -> bool {
        &&& self.s0@.len() <= u32::MAX
        &&& self.s1@.len() == self.s0@.len()
        &&& self.s2@.len() == self.s0@.len()
        &&& self.s3@.len() == self.s0@.len()
        &&& self.pop@.len() == self.s0@.len()
        &&& self.meta@.len() == self.s0@.len()
        &&& forall|r: int|
            0 <= r < self.s0@.len() ==> (#[trigger] self.pop@[r]) == popcount_sig(
                self.rows()[r].sig,
            )
        &&& self.bit_postings@.len() == 256
        &&& forall|b: int|
            0 <= b < 256 ==> is_posting(
                (#[trigger] self.bit_postings@[b])@,
                self.rows(),
                Feature::Bit(b as u16),
            )
        &&& self.bit_freq@.len() == 256
        &&& forall|b: int|
            0 <= b < 256 ==> (#[trigger] self.bit_freq@[b]) == self.bit_postings@[b]@.len()
        &&& self.pref1@.len() == 256
        &&& forall|c: int|
            0 <= c < 256 ==> is_posting(
                (#[trigger] self.pref1@[c])@,
                self.rows(),
                Feature::First(c as u8),
            )
        &&& self.pref3@.len() == PREF3_SIZE
        &&& forall|i: int|
            0 <= i < PREF3_SIZE ==> is_posting(
                (#[trigger] self.pref3@[i])@,
                self.rows(),
                Feature::Three(i as usize),
            )
        &&& keys_ascending(self.full6@)
        &&& forall|k: int|
            0 <= k < self.full6@.len() ==> {
                let e = #[trigger] self.full6@[k];
                e.1@.len() > 0 && is_posting(e.1@, self.rows(), Feature::Short(e.0))
            }
        &&& forall|r: int, key: u64|
            0 <= r < self.s0@.len() && #[trigger] row_has(self.rows()[r], Feature::Short(key))
                ==> has_key(self.full6@, key)
    }

    /// In a well-formed segment the posting list of bit `b` ascends and
    /// holds exactly the rows whose signature has bit `b` set, and the
    /// frequency of `b` is the length of that list.
    pub proof fn lemma_bit_postings(&self, b: int)
        requires
            self.wf(),
            0 <= b < 256,
        ensures
            ascending(self.bit_postings@[b]@),
            forall|r: int|
                0 <= r < self.rows().len() ==> (self.bit_postings@[b]@.contains(r as u32)
                    <==> sig_bit(#[trigger] self.rows()[r].sig, b)),
            forall|k: int|
                0 <= k < self.bit_postings@[b]@.len() ==> (#[trigger] self.bit_postings@[b]@[k])
                    < self.rows().len(),
            self.bit_freq@[b] == self.bit_postings@[b]@.len(),
    {
        let list = self.bit_postings@[b]@;
        let rows = self.rows();
        assert(is_posting(list, rows, Feature::Bit(b as u16)));
        assert forall|r: int| 0 <= r < rows.len() implies (list.contains(r as u32) <==> sig_bit(
            #[trigger] rows[r].sig,
            b,
        )) by {
            if list.contains(r as u32) {
                let k = choose|k: int| 0 <= k < list.len() && list[k] == r as u32;
                assert(row_has(rows[list[k] as int], Feature::Bit(b as u16)));
            }
            if sig_bit(rows[r].sig, b) {
                assert(row_has(rows[r], Feature::Bit(b as u16)));
            }
        }
    }

    /// In a well-formed segment the stored population count of every row
    /// is the number of bits set in its signature.
    pub proof fn lemma_popcounts(&self, r: int)
        requires
            self.wf(),
            0 <= r < self.rows().len(),
        ensures
            self.pop@[r] == popcount_sig(self.rows()[r].sig),
    {
    }

    /// In a well-formed segment every posting list is strictly ascending.
    pub proof fn lemma_postings_ascending(&self)
        requires
            self.wf(),
        ensures
            forall|b: int| 0 <= b < 256 ==> ascending((#[trigger] self.bit_postings@[b])@),
            forall|c: int| 0 <= c < 256 ==> ascending((#[trigger] self.pref1@[c])@),
            forall|i: int| 0 <= i < PREF3_SIZE ==> ascending((#[trigger] self.pref3@[i])@),
            forall|k: int| 0 <= k < self.full6@.len() ==> ascending((#[trigger] self.full6@[k]).1@),
    {
        assert forall|b: int| 0 <= b < 256 implies ascending((#[trigger] self.bit_postings@[b])@) by {
            assert(is_posting(self.bit_postings@[b]@, self.rows(), Feature::Bit(b as u16)));
        }
        assert forall|c: int| 0 <= c < 256 implies ascending((#[trigger] self.pref1@[c])@) by {
            assert(is_posting(self.pref1@[c]@, self.rows(), Feature::First(c as u8)));
        }
        assert forall|i: int| 0 <= i < PREF3_SIZE implies ascending((#[trigger] self.pref3@[i])@) by {
            assert(is_posting(self.pref3@[i]@, self.rows(), Feature::Three(i as usize)));
        }
        assert forall|k: int| 0 <= k < self.full6@.len() implies ascending(
            (#[trigger] self.full6@[k]).1@,
        ) by {
            let e = self.full6@[k];
            assert(is_posting(e.1@, self.rows(), Feature::Short(e.0)));
        }
    }

    /// Number of rows.
    pub fn len(&self) -> (n: usize)
        ensures
            n == self.rows().len(),
    {
        self.s0.len()
    }

    pub fn is_empty(&self) -> (e: bool)
        ensures
            e == (self.rows().len() == 0),
    {
        self.s0.len() == 0
    }
}

/// Whether a short-token table has an entry for `key`.
pub open spec fn has_key(pairs: Seq<(u64, Vec<u32>)>, key: u64) -> bool {
    exists|k: int| 0 <= k < pairs.len() && (#[trigger] pairs[k]).0 == key
}

/// Total number of rows in the first `n` segments.
pub open spec fn docs_in(segs: Seq<Arc<Segment>>, n: int) -> int
    decreases n,
{
    if n <= 0 {
        0
    } else {
        docs_in(segs, n - 1) + segs[n - 1].rows().len()
    }
}

/// An ordered list of sealed segments, read as one index.
#[derive(Clone)]
pub struct IndexView {
    pub segments: Vec<Arc<Segment>>,
}

/// `Arc::clone` hands back another handle to the same allocation, so the
/// value behind the result is the value behind the argument.
#[verifier::external_body]
fn share(seg: &Arc<Segment>) -> (r: Arc<Segment>)
    ensures
        r == *seg,
{
    Arc::clone(seg)
}

impl IndexView {
    /// Every segment is well formed, and there are few enough of them for
    /// a 16-bit segment number.
    pub open spec fn wf(&self) -> bool {
        &&& self.segments@.len() <= 65536
        &&& forall|i: int| 0 <= i < self.segments@.len() ==> (#[trigger] self.segments@[i]).wf()
    }

    /// Total number of rows.
    pub open spec fn docs(&self) -> int {
        docs_in(self.segments@, self.segments@.len() as int)
    }

    pub fn from_segments(segments: Vec<Arc<Segment>>) -> (v: IndexView)
        ensures
            v.segments == segments,
    {
        IndexView { segments }
    }

    /// Sum of the segment sizes.
    pub fn total_docs(&self) -> (n: usize)
        requires
            self.docs() <= usize::MAX,
        ensures
            n == self.docs(),
    {
        let mut n: usize = 0;
        let mut i: usize = 0;
        proof {
            lemma_docs_in_monotone(self.segments@, 0, self.segments@.len() as int);
        }
        while i < self.segments.len()
            invariant
                i <= self.segments@.len(),
                n == docs_in(self.segments@, i as int),
                self.docs() <= usize::MAX,
            decreases self.segments@.len() - i,
        {
            proof {
                lemma_docs_in_monotone(self.segments@, i as int + 1, self.segments@.len() as int);
            }
            n = n + self.segments[i].len();
            i = i + 1;
        }
        n
    }

    /// A new view with `seg` added after the segments of this one, which it
    /// shares.
    pub fn with_segment(&self, seg: Arc<Segment>) -> (v: IndexView)
        ensures
            v.segments@ == self.segments@.push(seg),
    {
        let mut next: Vec<Arc<Segment>> = Vec::new();
        let mut i: usize = 0;
        while i < self.segments.len()
            invariant
                i <= self.segments@.len(),
                next@ == self.segments@.take(i as int),
            decreases self.segments@.len() - i,
        {
            next.push(share(&self.segments[i]));
            i = i + 1;
            assert(next@ =~= self.segments@.take(i as int));
        }
        assert(self.segments@.take(self.segments@.len() as int) =~= self.segments@);
        next.push(seg);
        IndexView { segments: next }
    }
}

/// The running total of rows never decreases along the segment list.
pub proof fn lemma_docs_in_monotone(segs: Seq<Arc<Segment>>, i: int, j: int)
    requires
        0 <= i <= j <= segs.len(),
    ensures
        0 <= docs_in(segs, i) <= docs_in(segs, j),
    decreases j,
{
    if i < j {
        lemma_docs_in_monotone(segs, i, j - 1);
    } else if i > 0 {
        lemma_docs_in_monotone(segs, i - 1, i - 1);
    }
}

} // verus!
