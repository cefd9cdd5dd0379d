//! The segment builder: collects rows, one per external id, and seals them
//! into a segment.

use std::collections::HashMap;
use vstd::prelude::*;
use crate::index::{DocMeta, DocView, Feature, Row, Segment};
use crate::seal::{
    bit_postings_of, bits_ok, empty_lists, full6_ok, index_row, lemma_full6_entries,
    lemma_posting_len, pref1_ok, pref3_ok,
};
use crate::text::PREF3_SIZE;
use crate::ingest::{IngestItem, ItemView};
use crate::qgram::{sig256, signature256};
use crate::simd::{popcnt4, popcount_sig};

verus! {

broadcast use vstd::std_specs::hash::group_hash_axioms;

/// Accumulates documents until they are sealed into a segment.
pub struct IndexBuilder {
    pub(crate) meta: Vec<DocMeta>,
    signatures_aos: Vec<[u64; 4]>,
    id_to_row: HashMap<u32, u32>,
    pop: Vec<u16>,
    since_seal: usize,
}

/// The external id a document gets in a builder that holds `len` rows: its
/// own, or the next row number when it has none.
pub open spec fn assigned_id(id: Option<u32>, len: int) -> u32 {
    match id {
        Some(i) => i,
        None => len as u32,
    }
}

/// The row that holds external id `id`, if there is one.
pub open spec fn row_of_id(rows: Seq<Row>, id: u32) -> Option<int> {
    if exists|r: int| 0 <= r < rows.len() && (#[trigger] rows[r]).doc.id == id {
        Some(choose|r: int| 0 <= r < rows.len() && (#[trigger] rows[r]).doc.id == id)
    } else {
        None
    }
}

/// The row that `item` becomes in a builder that holds `len` rows.
pub open spec fn row_for(item: ItemView, len: int) -> Row {
    Row {
        sig: signature256(item.search),
        doc: DocView {
            id: assigned_id(item.id, len),
            title: item.title,
            author: item.author,
            genres: item.genres,
            url: item.url,
            uri: item.uri,
        },
    }
}

/// The rows after `item` is added: its row replaces the one with the same
/// external id, or is appended when there is none.
pub open spec fn rows_with(rows: Seq<Row>, item: ItemView) -> Seq<Row> {
    let row = row_for(item, rows.len() as int);
    match row_of_id(rows, row.doc.id) {
        Some(r) => rows.update(r, row),
        None => rows.push(row),
    }
}

/// The rows that parallel columns of signatures and metadata stand for.
pub open spec fn rows_of(sigs: Seq<[u64; 4]>, metas: Seq<DocMeta>) -> Seq<Row> {
    Seq::new(metas.len(), |r: int| Row { sig: sigs[r]@, doc: metas[r]@ })
}

impl IndexBuilder {
    /// The rows collected so far.
    pub closed spec fn rows(&self) -> Seq<Row> {
        rows_of(self.signatures_aos@, self.meta@)
    }

    /// The internal columns are parallel and the id table finds every row.
    pub closed spec fn wf(&self) -> bool {
        &&& self.meta@.len() <= u32::MAX
        &&& self.signatures_aos@.len() == self.meta@.len()
        &&& self.pop@.len() == self.meta@.len()
        &&& self.since_seal == self.meta@.len()
        &&& forall|r: int|
            0 <= r < self.meta@.len() ==> (#[trigger] self.pop@[r]) == popcount_sig(
                self.signatures_aos@[r]@,
            )
        &&& forall|id: u32| #[trigger]
            self.id_to_row@.contains_key(id) ==> self.id_to_row@[id] < self.meta@.len()
                && self.meta@[self.id_to_row@[id] as int].id == id
        &&& forall|r: int|
            0 <= r < self.meta@.len() ==> self.id_to_row@.contains_key(
                (#[trigger] self.meta@[r]).id,
            ) && self.id_to_row@[self.meta@[r].id] == r
    }

    /// No two rows of a well-formed builder share an external id.
    pub proof fn lemma_ids_distinct(&self)
        requires
            self.wf(),
        ensures
            forall|a: int, b: int|
                0 <= a < self.rows().len() && 0 <= b < self.rows().len() && self.rows()[a].doc.id
                    == self.rows()[b].doc.id ==> a == b,
            self.rows().len() <= u32::MAX,
    {
        assert forall|a: int, b: int|
            0 <= a < self.rows().len() && 0 <= b < self.rows().len() && self.rows()[a].doc.id
                == self.rows()[b].doc.id implies a == b by {
            assert(self.id_to_row@[self.meta@[a].id] == a);
            assert(self.id_to_row@[self.meta@[b].id] == b);
        }
    }

    pub fn new() -> (b: IndexBuilder)
        ensures
            b.wf(),
            b.rows() == Seq::<Row>::empty(),
    {
        let b = IndexBuilder {
            meta: Vec::with_capacity(64_000),
            signatures_aos: Vec::with_capacity(64_000),
            id_to_row: HashMap::with_capacity(64_000),
            pop: Vec::with_capacity(64_000),
            since_seal: 0,
        };
        assert(b.rows() =~= Seq::<Row>::empty());
        b
    }

    /// Number of rows collected so far.
    pub fn len(&self) -> (n: usize)
        requires
            self.wf(),
        ensures
            n == self.rows().len(),
    {
        self.signatures_aos.len()
    }

    /// Number of rows appended since the last seal.
    pub fn docs_since_seal(&self) -> (n: usize)
        requires
            self.wf(),
        ensures
            n == self.rows().len(),
    {
        self.since_seal
    }

    /// Adds a document. Its signature comes from `item.search` alone. A
    /// document whose external id is already in the builder replaces that
    /// row; any other is appended.
    pub fn add(&mut self, item: IngestItem)
        requires
            old(self).wf(),
            old(self).rows().len() < u32::MAX,
        ensures
            final(self).wf(),
            final(self).rows() == rows_with(old(self).rows(), item@),
    {
        let ghost rows0 = self.rows();
        let ghost row = row_for(item@, rows0.len() as int);
        let gid: u32 = match item.id {
            Some(i) => i,
            None => self.meta.len() as u32,
        };
        let sig = sig256(item.search.as_slice());
        let popcnt: u16 = popcnt4(&sig) as u16;
        let doc = DocMeta {
            id: gid,
            title: item.title,
            author: item.author,
            genres: item.genres,
            url: item.url,
            uri: item.uri,
        };
        let found: Option<u32> = match self.id_to_row.get(&gid) {
            Some(r) => Some(*r),
            None => None,
        };
        proof {
            self.lemma_ids_distinct();
        }
        match found {
            Some(r) => {
                let idx = r as usize;
                proof {
                    assert(rows0[idx as int].doc.id == gid);
                    assert(row_of_id(rows0, gid) == Some(idx as int));
                }
                self.signatures_aos[idx] = sig;
                self.pop[idx] = popcnt;
                self.meta[idx] = doc;
                proof {
                    assert(self.rows() =~= rows0.update(idx as int, row));
                }
            },
            None => {
                let r: u32 = self.meta.len() as u32;
                proof {
                    assert forall|x: int| 0 <= x < rows0.len() implies (#[trigger] rows0[x]).doc.id
                        != gid by {
                        assert(old(self).id_to_row@.contains_key(old(self).meta@[x].id));
                    }
                    assert(row_of_id(rows0, gid) is None);
                }
                self.id_to_row.insert(gid, r);
                self.signatures_aos.push(sig);
                self.pop.push(popcnt);
                self.meta.push(doc);
                self.since_seal = self.since_seal + 1;
                proof {
                    assert(self.rows() =~= rows0.push(row));
                }
            },
        }
    }

    /// Seals the collected rows into a segment and empties the builder.
    ///
    /// The segment holds the rows as they are, with the posting lists of
    /// their signature bits and of the tokens of their title, author and
    /// genres.
    pub fn seal_into_segment(&mut self) -> (seg: Segment)
        requires
            old(self).wf(),
        ensures
            seg.wf(),
            seg.rows() == old(self).rows(),
            final(self).wf(),
            final(self).rows() == Seq::<Row>::empty(),
    {
        let ghost rows = self.rows();
        let n = self.signatures_aos.len();
        let postings = bit_postings_of(&self.signatures_aos, Ghost(rows));

        let mut freq: Vec<u32> = Vec::new();
        let mut b: usize = 0;
        while b < 256
            invariant
                b <= 256,
                freq@.len() == b,
                rows.len() <= u32::MAX,
                bits_ok(postings@, rows, 256),
                forall|x: int| 0 <= x < b ==> (#[trigger] freq@[x]) == postings@[x]@.len(),
            decreases 256 - b,
        {
            proof {
                lemma_posting_len(postings@[b as int]@, rows, Feature::Bit(b as u16));
            }
            freq.push(postings[b].len() as u32);
            b = b + 1;
        }

        let mut s0: Vec<u64> = Vec::with_capacity(n);
        let mut s1: Vec<u64> = Vec::with_capacity(n);
        let mut s2: Vec<u64> = Vec::with_capacity(n);
        let mut s3: Vec<u64> = Vec::with_capacity(n);
        let mut i: usize = 0;
        while i < n
            invariant
                n == self.signatures_aos@.len(),
                i <= n,
                s0@.len() == i,
                s1@.len() == i,
                s2@.len() == i,
                s3@.len() == i,
                forall|r: int|
                    0 <= r < i ==> {
                        let sig = #[trigger] self.signatures_aos@[r];
                        s0@[r] == sig@[0] && s1@[r] == sig@[1] && s2@[r] == sig@[2] && s3@[r]
                            == sig@[3]
                    },
            decreases n - i,
        {
            let sig = self.signatures_aos[i];
            s0.push(sig[0]);
            s1.push(sig[1]);
            s2.push(sig[2]);
            s3.push(sig[3]);
            i = i + 1;
        }

        let mut pref1 = empty_lists(256);
        let mut pref3 = empty_lists(PREF3_SIZE);
        let mut full6: Vec<(u64, Vec<u32>)> = Vec::new();
        proof {
            assert(pref1_ok(pref1@, rows.take(0)));
            assert(pref3_ok(pref3@, rows.take(0)));
            assert(full6_ok(full6@, rows.take(0)));
        }
        let mut r: usize = 0;
        while r < n
            invariant
                n == self.meta@.len(),
                rows == self.rows(),
                rows.len() == n,
                n <= u32::MAX,
                r <= n,
                pref1_ok(pref1@, rows.take(r as int)),
                pref3_ok(pref3@, rows.take(r as int)),
                full6_ok(full6@, rows.take(r as int)),
            decreases n - r,
        {
            index_row(&mut pref1, &mut pref3, &mut full6, &self.meta[r], r as u32, Ghost(rows));
            r = r + 1;
        }

        let mut meta: Vec<DocMeta> = Vec::new();
        let mut pop: Vec<u16> = Vec::new();
        let ghost old_sigs = self.signatures_aos@;
        std::mem::swap(&mut self.meta, &mut meta);
        std::mem::swap(&mut self.pop, &mut pop);
        self.signatures_aos.clear();
        self.id_to_row.clear();
        self.since_seal = 0;

        let seg = Segment {
            s0,
            s1,
            s2,
            s3,
            pop,
            meta,
            bit_postings: postings,
            bit_freq: freq,
            pref1,
            pref3,
            full6,
        };
        proof {
            assert(rows.take(n as int) =~= rows);
            assert forall|x: int| 0 <= x < n implies (#[trigger] seg.rows()[x]) == rows[x] by {
                let sig = old_sigs[x];
                assert(seg.rows()[x].sig =~= sig@);
            }
            assert(seg.rows() =~= rows);
            lemma_full6_entries(seg.full6@, rows);
            assert(self.rows() =~= Seq::<Row>::empty());
        }
        seg
    }
}

} // verus!
