//! Documents on their way into the index.

use vstd::prelude::*;
use crate::le::{le32_at, read_u32};
use crate::storage::{read_record, records_from, RecView};
use crate::text::copy_range;

verus! {

/// One document to index. `search` is the text the signature is built from;
/// the other fields are stored with the row.
#[derive(Debug)]
pub struct IngestItem {
    /// External id; `None` asks for one to be assigned.
    pub id: Option<u32>,
    pub search: Vec<u8>,
    pub title: Vec<u8>,
    pub author: Vec<u8>,
    pub genres: Vec<u8>,
    pub url: Vec<u8>,
    pub uri: Vec<u8>,
}

/// What an item holds, as plain values.
pub struct ItemView {
    pub id: Option<u32>,
    pub search: Seq<u8>,
    pub title: Seq<u8>,
    pub author: Seq<u8>,
    pub genres: Seq<u8>,
    pub url: Seq<u8>,
    pub uri: Seq<u8>,
}

impl View for IngestItem {
    type V = ItemView;

    open spec fn view(&self) -> ItemView {
        ItemView {
            id: self.id,
            search: self.search@,
            title: self.title@,
            author: self.author@,
            genres: self.genres@,
            url: self.url@,
            uri: self.uri@,
        }
    }
}

/// The item that a packed record asks to ingest: its fields, and its id
/// unless that is the sentinel `u32::MAX`, which asks for one to be
/// assigned.
pub open spec fn packed_item(r: RecView) -> ItemView {
    ItemView {
        id: if r.id == u32::MAX {
            None
        } else {
            Some(r.id)
        },
        search: r.search,
        title: r.title,
        author: r.author,
        genres: r.genres,
        url: r.url,
        uri: r.uri,
    }
}

/// An item with a search text only.
pub open spec fn text_item(id: Option<u32>, search: Seq<u8>) -> ItemView {
    ItemView {
        id,
        search,
        title: Seq::empty(),
        author: Seq::empty(),
        genres: Seq::empty(),
        url: Seq::empty(),
        uri: Seq::empty(),
    }
}

/// The items of a list, as plain values.
pub open spec fn item_views(items: Seq<IngestItem>) -> Seq<ItemView> {
    Seq::new(items.len(), |i: int| items[i]@)
}

/// Parses a packed ingest body: records in the layout of the log, up to
/// the first one that is cut short.
pub fn parse_ingest_pack(body: &[u8]) -> (items: Vec<IngestItem>)
    ensures
        item_views(items@) == records_from(body@, 0).map_values(|r: RecView| packed_item(r)),
{
    let ghost all = records_from(body@, 0);
    let mut items: Vec<IngestItem> = Vec::new();
    let mut pos: usize = 0;
    let ghost mut done: Seq<RecView> = Seq::empty();
    proof {
        assert(done + records_from(body@, 0) =~= all);
    }
    loop
        invariant
            all == records_from(body@, 0),
            pos <= body@.len(),
            all == done + records_from(body@, pos as int),
            items@.len() == done.len(),
            forall|i: int| 0 <= i < done.len() ==> (#[trigger] items@[i])@ == packed_item(done[i]),
        ensures
            done == all,
        decreases body@.len() - pos,
    {
        match read_record(body, pos) {
            None => {
                proof {
                    assert(records_from(body@, pos as int) =~= Seq::<RecView>::empty());
                    assert(done =~= all);
                }
                break ;
            },
            Some((rec, next)) => {
                proof {
                    let r = rec@;
                    assert(records_from(body@, pos as int) == seq![r] + records_from(
                        body@,
                        next as int,
                    ));
                    let grown = done.push(r);
                    assert(grown + records_from(body@, next as int) =~= all);
                    done = grown;
                }
                let item = IngestItem {
                    id: if rec.id == u32::MAX {
                        None
                    } else {
                        Some(rec.id)
                    },
                    search: rec.search,
                    title: rec.title,
                    author: rec.author,
                    genres: rec.genres,
                    url: rec.url,
                    uri: rec.uri,
                };
                items.push(item);
                pos = next;
            },
        }
    }
    proof {
        assert(item_views(items@) =~= all.map_values(|r: RecView| packed_item(r)));
    }
    items
}

/// The item of the binary record that starts at `pos`, with the position
/// after it: a 32-bit id, a 32-bit length and that many bytes of search
/// text. `None` when the bytes from `pos` on do not hold a whole record.
pub open spec fn bin_record_at(s: Seq<u8>, pos: int) -> Option<(ItemView, int)> {
    if pos < 0 || pos + 8 > s.len() {
        None
    } else {
        let id = le32_at(s, pos) as u32;
        let end = pos + 8 + le32_at(s, pos + 4);
        if end > s.len() {
            None
        } else {
            Some(
                (
                    text_item(
                        if id == u32::MAX {
                            None
                        } else {
                            Some(id)
                        },
                        s.subrange(pos + 8, end),
                    ),
                    end,
                ),
            )
        }
    }
}

/// The items of a binary ingest body from `pos` on.
pub open spec fn bin_items_from(s: Seq<u8>, pos: int) -> Seq<ItemView>
    decreases s.len() - pos,
{
    match bin_record_at(s, pos) {
        Some((item, next)) => if pos < next <= s.len() {
            seq![item] + bin_items_from(s, next)
        } else {
            Seq::empty()
        },
        None => Seq::empty(),
    }
}

/// Parses a binary ingest body: records of id, length and search text, up
/// to the first one that is cut short.
pub fn ingest_bin(body: &[u8]) -> (items: Vec<IngestItem>)
    ensures
        item_views(items@) == bin_items_from(body@, 0),
{
    let n = body.len();
    let mut items: Vec<IngestItem> = Vec::new();
    let mut pos: usize = 0;
    proof {
        assert(item_views(items@) =~= Seq::<ItemView>::empty());
    }
    while n - pos >= 8
        invariant
            n == body@.len(),
            pos <= n,
            bin_items_from(body@, 0) == item_views(items@) + bin_items_from(body@, pos as int),
        ensures
            bin_items_from(body@, 0) == item_views(items@),
        decreases n - pos,
    {
        let id = read_u32(body, pos);
        let len = read_u32(body, pos + 4) as usize;
        if n - (pos + 8) < len {
            proof {
                assert(bin_record_at(body@, pos as int) is None);
                assert(item_views(items@) + Seq::<ItemView>::empty() =~= item_views(items@));
            }
            break ;
        }
        let end = pos + 8 + len;
        let item = IngestItem {
            id: if id == u32::MAX {
                None
            } else {
                Some(id)
            },
            search: copy_range(body, pos + 8, end),
            title: Vec::new(),
            author: Vec::new(),
            genres: Vec::new(),
            url: Vec::new(),
            uri: Vec::new(),
        };
        proof {
            let before = item_views(items@);
            assert(bin_record_at(body@, pos as int) == Some((item@, end as int)));
            assert(item_views(items@.push(item)) =~= before.push(item@));
            assert(before.push(item@) + bin_items_from(body@, end as int) =~= before + (seq![
                item@,
            ] + bin_items_from(body@, end as int)));
        }
        items.push(item);
        pos = end;
    }
    proof {
        if n - pos < 8 {
            assert(bin_record_at(body@, pos as int) is None);
            assert(item_views(items@) + Seq::<ItemView>::empty() =~= item_views(items@));
        }
    }
    items
}

/// ASCII white space: space, tab, line feed, vertical tab, form feed and
/// carriage return.
pub open spec fn is_space(b: u8) -> bool {
    b == 32 || (9 <= b <= 13)
}

/// First position in `from..to` that holds `b`, or `to`.
pub open spec fn find_byte_in(s: Seq<u8>, b: u8, from: int, to: int) -> int
    decreases to - from,
{
    if from >= to {
        to
    } else if s[from] == b {
        from
    } else {
        find_byte_in(s, b, from + 1, to)
    }
}

/// First position in `from..to` that holds no white space, or `to`.
pub open spec fn skip_spaces(s: Seq<u8>, from: int, to: int) -> int
    decreases to - from,
{
    if from >= to {
        to
    } else if !is_space(s[from]) {
        from
    } else {
        skip_spaces(s, from + 1, to)
    }
}

/// End of `from..to` without the white space at its end.
pub open spec fn drop_spaces(s: Seq<u8>, from: int, to: int) -> int
    decreases to - from,
{
    if to <= from {
        from
    } else if !is_space(s[to - 1]) {
        to
    } else {
        drop_spaces(s, from, to - 1)
    }
}

/// The decimal number written in `from..to`, continuing from the value
/// `acc` of the digits before; `None` when a byte is no digit or the value
/// passes `u32::MAX`.
pub open spec fn decimal_in(s: Seq<u8>, from: int, to: int, acc: int) -> Option<u32>
    decreases to - from,
{
    if from >= to {
        Some(acc as u32)
    } else if !(48 <= s[from] <= 57) {
        None
    } else if acc * 10 + (s[from] - 48) > u32::MAX {
        None
    } else {
        decimal_in(s, from + 1, to, acc * 10 + (s[from] - 48))
    }
}

/// The unsigned number written in `from..to`: an optional `+` and at
/// least one digit.
pub open spec fn number_in(s: Seq<u8>, from: int, to: int) -> Option<u32> {
    let a = if from < to && s[from] == 43 {
        from + 1
    } else {
        from
    };
    if a >= to {
        None
    } else {
        decimal_in(s, a, to, 0)
    }
}

/// The item of the line `from..to`, if it has one. A line is an id, a tab
/// and a search text, or a search text alone; an id that is no number
/// counts as none. White space around id and text is dropped, and a line
/// without text has no item.
pub open spec fn line_item(s: Seq<u8>, from: int, to: int) -> Option<ItemView> {
    if from >= to {
        None
    } else {
        let t = find_byte_in(s, 9, from, to);
        if t < to {
            let a = skip_spaces(s, t + 1, to);
            let e = drop_spaces(s, a, to);
            let ia = skip_spaces(s, from, t);
            let ie = drop_spaces(s, ia, t);
            if a < e {
                Some(text_item(number_in(s, ia, ie), s.subrange(a, e)))
            } else {
                None
            }
        } else {
            let a = skip_spaces(s, from, to);
            let e = drop_spaces(s, a, to);
            if a < e {
                Some(text_item(None, s.subrange(a, e)))
            } else {
                None
            }
        }
    }
}

/// The items of the lines of `s` from `pos` on; lines end at a line feed.
pub open spec fn line_items(s: Seq<u8>, pos: int) -> Seq<ItemView>
    decreases s.len() - pos,
{
    if pos < 0 || pos > s.len() {
        Seq::empty()
    } else {
        let e = find_byte_in(s, 10, pos, s.len() as int);
        let rest = if pos <= e < s.len() {
            line_items(s, e + 1)
        } else {
            Seq::empty()
        };
        match line_item(s, pos, e) {
            Some(item) => seq![item] + rest,
            None => rest,
        }
    }
}

fn find_byte(s: &[u8], b: u8, from: usize, to: usize) -> (r: usize)
    requires
        from <= to <= s@.len(),
    ensures
        r == find_byte_in(s@, b, from as int, to as int),
        from <= r <= to,
{
    let mut i = from;
    while i < to && s[i] != b
        invariant
            from <= i <= to <= s@.len(),
            find_byte_in(s@, b, from as int, to as int) == find_byte_in(s@, b, i as int, to as int),
        decreases to - i,
    {
        i = i + 1;
    }
    i
}

fn is_space_byte(b: u8) -> (r: bool)
    ensures
        r == is_space(b),
{
    b == 32 || (9 <= b && b <= 13)
}

fn skip_spaces_in(s: &[u8], from: usize, to: usize) -> (r: usize)
    requires
        from <= to <= s@.len(),
    ensures
        r == skip_spaces(s@, from as int, to as int),
        from <= r <= to,
{
    let mut i = from;
    while i < to && is_space_byte(s[i])
        invariant
            from <= i <= to <= s@.len(),
            skip_spaces(s@, from as int, to as int) == skip_spaces(s@, i as int, to as int),
        decreases to - i,
    {
        i = i + 1;
    }
    i
}

fn drop_spaces_in(s: &[u8], from: usize, to: usize) -> (r: usize)
    requires
        from <= to <= s@.len(),
    ensures
        r == drop_spaces(s@, from as int, to as int),
        from <= r <= to,
{
    let mut e = to;
    while e > from && is_space_byte(s[e - 1])
        invariant
            from <= e <= to <= s@.len(),
            drop_spaces(s@, from as int, to as int) == drop_spaces(s@, from as int, e as int),
        decreases e - from,
    {
        e = e - 1;
    }
    e
}

fn parse_number(s: &[u8], from: usize, to: usize) -> (r: Option<u32>)
    requires
        from <= to <= s@.len(),
    ensures
        r == number_in(s@, from as int, to as int),
{
    let a = if from < to && s[from] == 43 {
        from + 1
    } else {
        from
    };
    if a >= to {
        return None;
    }
    let mut acc: u64 = 0;
    let mut i = a;
    while i < to
        invariant
            a <= i <= to <= s@.len(),
            acc <= u32::MAX,
            number_in(s@, from as int, to as int) == decimal_in(s@, a as int, to as int, 0),
            decimal_in(s@, a as int, to as int, 0) == decimal_in(s@, i as int, to as int, acc as int),
        decreases to - i,
    {
        let c = s[i];
        if !(48 <= c && c <= 57) {
            assert(decimal_in(s@, i as int, to as int, acc as int) is None);
            return None;
        }
        let next: u64 = acc * 10 + ((c - 48) as u64);
        if next > 4294967295 {
            assert(decimal_in(s@, i as int, to as int, acc as int) is None);
            return None;
        }
        assert(decimal_in(s@, i as int, to as int, acc as int) == decimal_in(
            s@,
            i + 1,
            to as int,
            next as int,
        ));
        acc = next;
        i = i + 1;
    }
    Some(acc as u32)
}

/// Parses a text ingest body: one document per line, as an id, a tab and
/// the search text, or as the search text alone.
pub fn ingest_lines(body: &[u8]) -> (items: Vec<IngestItem>)
    ensures
        item_views(items@) == line_items(body@, 0),
{
    let n = body.len();
    let mut items: Vec<IngestItem> = Vec::new();
    let mut pos: usize = 0;
    let mut more = true;
    proof {
        assert(item_views(items@) =~= Seq::<ItemView>::empty());
    }
    while more
        invariant
            n == body@.len(),
            pos <= n,
            more ==> line_items(body@, 0) == item_views(items@) + line_items(body@, pos as int),
            !more ==> line_items(body@, 0) == item_views(items@),
        decreases n - pos + (if more { 1int } else { 0int }),
    {
        let e = find_byte(body, 10, pos, n);
        let ghost before = item_views(items@);
        let mut found: Option<IngestItem> = None;
        if pos < e {
            let t = find_byte(body, 9, pos, e);
            if t < e {
                let a = skip_spaces_in(body, t + 1, e);
                let z = drop_spaces_in(body, a, e);
                if a < z {
                    let ia = skip_spaces_in(body, pos, t);
                    let ie = drop_spaces_in(body, ia, t);
                    found = Some(
                        IngestItem {
                            id: parse_number(body, ia, ie),
                            search: copy_range(body, a, z),
                            title: Vec::new(),
                            author: Vec::new(),
                            genres: Vec::new(),
                            url: Vec::new(),
                            uri: Vec::new(),
                        },
                    );
                }
            } else {
                let a = skip_spaces_in(body, pos, e);
                let z = drop_spaces_in(body, a, e);
                if a < z {
                    found = Some(
                        IngestItem {
                            id: None,
                            search: copy_range(body, a, z),
                            title: Vec::new(),
                            author: Vec::new(),
                            genres: Vec::new(),
                            url: Vec::new(),
                            uri: Vec::new(),
                        },
                    );
                }
            }
        }
        proof {
            if found is Some {
                assert(line_item(body@, pos as int, e as int) == Some(found->0@));
            } else {
                assert(line_item(body@, pos as int, e as int) is None);
            }
        }
        let ghost rest = if e < n {
            line_items(body@, e + 1)
        } else {
            Seq::<ItemView>::empty()
        };
        match found {
            Some(item) => {
                proof {
                    assert(item_views(items@.push(item)) =~= before.push(item@));
                    assert(before.push(item@) + rest =~= before + (seq![item@] + rest));
                }
                items.push(item);
            },
            None => {},
        }
        if e < n {
            pos = e + 1;
        } else {
            proof {
                assert(item_views(items@) + rest =~= item_views(items@));
            }
            more = false;
        }
    }
    items
}

} // verus!
