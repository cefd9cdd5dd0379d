//! The writer's decisions: which id a document gets, when the builder is
//! sealed, how a sealed segment is published, and how the index is rebuilt
//! from the log at start.

use std::sync::Arc;
use vstd::prelude::*;
use crate::builder::{rows_with, IndexBuilder};
use crate::index::{IndexView, Row, Segment};
use crate::ingest::{IngestItem, ItemView};
use crate::storage::{record_at, records_from, PackReader, RecView};

verus! {

/// The id that the writer gives a document: its own, or the next of the
/// sequence when it has none. `None` when that id is the sentinel
/// `u32::MAX`, which no document may have.
pub open spec fn writer_id(id: Option<u32>, next_id: u32) -> Option<u32> {
    let gid = match id {
        Some(i) => i,
        None => next_id,
    };
    if gid == u32::MAX {
        None
    } else {
        Some(gid)
    }
}

/// The next id of the sequence after a document was given its id.
pub open spec fn next_after(id: Option<u32>, next_id: u32) -> u32 {
    match id {
        Some(_) => next_id,
        None => if next_id == u32::MAX {
            0
        } else {
            (next_id + 1) as u32
        },
    }
}

/// Gives a document its id and advances the sequence when it was used.
pub fn assign_id(id: Option<u32>, next_id: &mut u32) -> (gid: Option<u32>)
    ensures
        gid == writer_id(id, *old(next_id)),
        *final(next_id) == next_after(id, *old(next_id)),
{
    let g = match id {
        Some(i) => i,
        None => {
            let x = *next_id;
            *next_id = if x == u32::MAX {
                0
            } else {
                x + 1
            };
            x
        },
    };
    if g == u32::MAX {
        None
    } else {
        Some(g)
    }
}

/// Whether the builder is to be sealed now: it holds new documents, and
/// either enough of them or the flush interval has passed.
pub fn flush_due(docs_since: usize, flush_docs: usize, timed_out: bool) -> (due: bool)
    ensures
        due == (docs_since > 0 && (docs_since >= flush_docs || timed_out)),
{
    docs_since > 0 && (docs_since >= flush_docs || timed_out)
}

/// Seals the builder and returns the view that follows `view`: the same
/// segments, shared, and the new one after them.
pub fn publish(builder: &mut IndexBuilder, view: &IndexView) -> (next: IndexView)
    requires
        old(builder).wf(),
    ensures
        final(builder).wf(),
        final(builder).rows() == Seq::<Row>::empty(),
        next.segments@.len() == view.segments@.len() + 1,
        next.segments@.take(view.segments@.len() as int) == view.segments@,
        next.segments@.last().wf(),
        next.segments@.last().rows() == old(builder).rows(),
        view.wf() && view.segments@.len() < 65536 ==> next.wf(),
        next.docs() == view.docs() + old(builder).rows().len(),
{
    let seg = Arc::new(builder.seal_into_segment());
    let next = view.with_segment(seg);
    proof {
        let n = view.segments@.len() as int;
        assert(next.segments@.take(n) =~= view.segments@);
        assert(next.segments@.last() == seg);
        lemma_docs_prefix(next.segments@, view.segments@, n);
    }
    next
}

/// The row total of a prefix does not depend on what follows it.
pub proof fn lemma_docs_prefix(a: Seq<Arc<Segment>>, b: Seq<Arc<Segment>>, n: int)
    requires
        0 <= n <= a.len(),
        n <= b.len(),
        forall|i: int| 0 <= i < n ==> a[i] == b[i],
    ensures
        crate::index::docs_in(a, n) == crate::index::docs_in(b, n),
    decreases n,
{
    if n > 0 {
        lemma_docs_prefix(a, b, n - 1);
    }
}

/// The item that a log record is replayed as: the record's fields, with
/// its id.
pub open spec fn replayed_item(r: RecView) -> ItemView {
    ItemView {
        id: Some(r.id),
        search: r.search,
        title: r.title,
        author: r.author,
        genres: r.genres,
        url: r.url,
        uri: r.uri,
    }
}

/// Where a replay stands: the row lists that were sealed, and the rows of
/// the builder.
pub struct Replay {
    pub sealed: Seq<Seq<Row>>,
    pub open: Seq<Row>,
}

/// The replay after the given records: each is added to the builder, which
/// is sealed whenever it holds `seg_docs` rows or more.
pub open spec fn replay_of(recs: Seq<RecView>, seg_docs: int) -> Replay
    decreases recs.len(),
{
    if recs.len() == 0 {
        Replay { sealed: Seq::empty(), open: Seq::empty() }
    } else {
        let before = replay_of(recs.drop_last(), seg_docs);
        let rows = rows_with(before.open, replayed_item(recs.last()));
        if rows.len() >= seg_docs {
            Replay { sealed: before.sealed.push(rows), open: Seq::empty() }
        } else {
            Replay { sealed: before.sealed, open: rows }
        }
    }
}

/// The row lists of the segments that a replay of `log` ends with: those
/// sealed on the way, and the rest of the builder if it holds any row.
pub open spec fn replayed_segments(log: Seq<u8>, seg_docs: int) -> Seq<Seq<Row>> {
    let end = replay_of(records_from(log, 0), seg_docs);
    if end.open.len() > 0 {
        end.sealed.push(end.open)
    } else {
        end.sealed
    }
}

/// Rebuilds the index from a log: every record, up to the first one that is
/// cut short, goes through one builder, which is sealed whenever it holds
/// `replay_seg_docs` rows or more, and once more at the end if rows are
/// left.
pub fn replay(log: Vec<u8>, replay_seg_docs: usize) -> (view: IndexView)
    requires
        replay_seg_docs <= u32::MAX,
    ensures
        view.segments@.len() == replayed_segments(log@, replay_seg_docs as int).len(),
        forall|i: int|
            0 <= i < view.segments@.len() ==> (#[trigger] view.segments@[i]).wf()
                && view.segments@[i].rows() == replayed_segments(log@, replay_seg_docs as int)[i],
        view.segments@.len() <= 65536 ==> view.wf(),
{
    let ghost bytes = log@;
    let ghost all = records_from(bytes, 0);
    let ghost seg_docs = replay_seg_docs as int;
    let mut reader = PackReader::new(log);
    let mut builder = IndexBuilder::new();
    let mut segments: Vec<Arc<Segment>> = Vec::new();
    let ghost mut done: Seq<RecView> = Seq::empty();
    proof {
        assert(done + records_from(bytes, 0) =~= all);
    }
    loop
        invariant
            reader.buf@ == bytes,
            all == records_from(bytes, 0),
            seg_docs == replay_seg_docs,
            seg_docs <= u32::MAX,
            all == done + records_from(bytes, reader.pos as int),
            builder.wf(),
            builder.rows() == replay_of(done, seg_docs).open,
            builder.rows().len() < seg_docs || builder.rows().len() == 0,
            segments@.len() == replay_of(done, seg_docs).sealed.len(),
            forall|i: int|
                0 <= i < segments@.len() ==> (#[trigger] segments@[i]).wf() && segments@[i].rows()
                    == replay_of(done, seg_docs).sealed[i],
        ensures
            done == all,
        decreases bytes.len() - reader.pos,
    {
        let ghost pos = reader.pos as int;
        match reader.next() {
            None => {
                proof {
                    assert(records_from(bytes, pos) =~= Seq::<RecView>::empty());
                    assert(done =~= all);
                }
                break ;
            },
            Some(rec) => {
                proof {
                    let r = rec@;
                    let next = reader.pos as int;
                    assert(record_at(bytes, pos) == Some((r, next)));
                    assert(pos < next <= bytes.len());
                    assert(records_from(bytes, pos) == seq![r] + records_from(bytes, next));
                    let grown = done.push(r);
                    assert(grown + records_from(bytes, next) =~= all);
                    assert(grown.drop_last() =~= done);
                    assert(grown.last() == r);
                    done = grown;
                }
                let item = IngestItem {
                    id: Some(rec.id),
                    search: rec.search,
                    title: rec.title,
                    author: rec.author,
                    genres: rec.genres,
                    url: rec.url,
                    uri: rec.uri,
                };
                assert(item@ == replayed_item(rec@));
                builder.add(item);
                if builder.len() >= replay_seg_docs {
                    let seg = Arc::new(builder.seal_into_segment());
                    segments.push(seg);
                }
            },
        }
    }
    if builder.len() > 0 {
        let seg = Arc::new(builder.seal_into_segment());
        segments.push(seg);
    }
    IndexView::from_segments(segments)
}

} // verus!
