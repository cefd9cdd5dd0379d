//! Building the posting lists of a segment, row by row.

use vstd::prelude::*;
use crate::index::{
    doc_text, has_key, is_posting, row_has, tok_has, toks_have, DocMeta, Feature, Row,
};
use crate::le::put_bytes;
use crate::postings::{ascending, keys_ascending};
use crate::qgram::sig_bit;
use crate::text::{
    hash_token64, normalize_ascii_inplace, pref3_index, tokenize_bytes, tokens, views, PREF3_SIZE,
};

verus! {

/// `list` with `row` at its end, unless it ends with `row` already.
pub open spec fn with_row(list: Seq<u32>, row: u32) -> Seq<u32> {
    if list.len() > 0 && list.last() == row {
        list
    } else {
        list.push(row)
    }
}

/// The posting list stored under `key`, empty when the table has no such
/// entry.
pub open spec fn entry_list(table: Seq<(u64, Vec<u32>)>, key: u64) -> Seq<u32> {
    if has_key(table, key) {
        table[choose|k: int| 0 <= k < table.len() && (#[trigger] table[k]).0 == key].1@
    } else {
        Seq::empty()
    }
}

/// `list` is the posting list of `f` over the rows before `r`, and holds
/// `r` itself exactly when one of the tokens of row `r` seen so far has `f`.
pub open spec fn is_partial(
    list: Seq<u32>,
    rows: Seq<Row>,
    r: int,
    done: Seq<Seq<u8>>,
    f: Feature,
) -> bool {
    &&& ascending(list)
    &&& forall|k: int| 0 <= k < list.len() ==> (#[trigger] list[k]) <= r
    &&& forall|k: int|
        0 <= k < list.len() && (#[trigger] list[k]) < r ==> row_has(rows[list[k] as int], f)
    &&& forall|x: int| 0 <= x < r && row_has(#[trigger] rows[x], f) ==> list.contains(x as u32)
    &&& list.contains(r as u32) <==> toks_have(done, f)
}

pub open spec fn bits_ok(lists: Seq<Vec<u32>>, rows: Seq<Row>, upto: int) -> bool {
    &&& lists.len() == 256
    &&& forall|b: int|
        0 <= b < upto ==> is_posting((#[trigger] lists[b])@, rows, Feature::Bit(b as u16))
}

pub open spec fn pref1_ok(lists: Seq<Vec<u32>>, rows: Seq<Row>) -> bool {
    &&& lists.len() == 256
    &&& forall|c: int|
        0 <= c < 256 ==> is_posting((#[trigger] lists[c])@, rows, Feature::First(c as u8))
}

pub open spec fn pref3_ok(lists: Seq<Vec<u32>>, rows: Seq<Row>) -> bool {
    &&& lists.len() == PREF3_SIZE
    &&& forall|i: int|
        0 <= i < PREF3_SIZE ==> is_posting(
            (#[trigger] lists[i])@,
            rows,
            Feature::Three(i as usize),
        )
}

pub open spec fn full6_ok(table: Seq<(u64, Vec<u32>)>, rows: Seq<Row>) -> bool {
    &&& keys_ascending(table)
    &&& forall|key: u64|
        is_posting(#[trigger] entry_list(table, key), rows, Feature::Short(key)) && (has_key(
            table,
            key,
        ) ==> entry_list(table, key).len() > 0)
}

pub open spec fn pref1_partial(
    lists: Seq<Vec<u32>>,
    rows: Seq<Row>,
    r: int,
    done: Seq<Seq<u8>>,
) -> bool {
    &&& lists.len() == 256
    &&& forall|c: int|
        0 <= c < 256 ==> is_partial(
            (#[trigger] lists[c])@,
            rows,
            r,
            done,
            Feature::First(c as u8),
        )
}

pub open spec fn pref3_partial(
    lists: Seq<Vec<u32>>,
    rows: Seq<Row>,
    r: int,
    done: Seq<Seq<u8>>,
) -> bool {
    &&& lists.len() == PREF3_SIZE
    &&& forall|i: int|
        0 <= i < PREF3_SIZE ==> is_partial(
            (#[trigger] lists[i])@,
            rows,
            r,
            done,
            Feature::Three(i as usize),
        )
}

pub open spec fn full6_partial(
    table: Seq<(u64, Vec<u32>)>,
    rows: Seq<Row>,
    r: int,
    done: Seq<Seq<u8>>,
) -> bool {
    &&& keys_ascending(table)
    &&& forall|key: u64|
        is_partial(#[trigger] entry_list(table, key), rows, r, done, Feature::Short(key))
            && (has_key(table, key) ==> entry_list(table, key).len() > 0)
}

/// The `k`-th entry of an ascending list is at least `k`.
pub proof fn lemma_ascending_lower(list: Seq<u32>, k: int)
    requires
        ascending(list),
        0 <= k < list.len(),
    ensures
        list[k] >= k,
    decreases k,
{
    if k > 0 {
        lemma_ascending_lower(list, k - 1);
    }
}

/// A posting list is no longer than the rows it is about.
pub proof fn lemma_posting_len(list: Seq<u32>, rows: Seq<Row>, f: Feature)
    requires
        is_posting(list, rows, f),
    ensures
        list.len() <= rows.len(),
{
    if list.len() > 0 {
        lemma_ascending_lower(list, list.len() - 1);
    }
}

/// A table with strictly ascending keys stores under each of its keys the
/// list of that entry.
pub proof fn lemma_entry_at(table: Seq<(u64, Vec<u32>)>, k: int)
    requires
        keys_ascending(table),
        0 <= k < table.len(),
    ensures
        has_key(table, table[k].0),
        entry_list(table, table[k].0) == table[k].1@,
{
    let key = table[k].0;
    assert(has_key(table, key));
    let c = choose|c: int| 0 <= c < table.len() && (#[trigger] table[c]).0 == key;
    if c < k {
        assert(table[c].0 < table[k].0);
    }
    if k < c {
        assert(table[k].0 < table[c].0);
    }
}

proof fn lemma_posting_extend(list: Seq<u32>, rows: Seq<Row>, r: int, f: Feature)
    requires
        0 <= r < rows.len(),
        r <= u32::MAX,
        is_posting(list, rows.take(r), f),
    ensures
        is_posting(
            if row_has(rows[r], f) {
                list.push(r as u32)
            } else {
                list
            },
            rows.take(r + 1),
            f,
        ),
{
    let rt = rows.take(r);
    let rt1 = rows.take(r + 1);
    let new = if row_has(rows[r], f) {
        list.push(r as u32)
    } else {
        list
    };
    assert forall|k: int| 0 <= k < new.len() implies (#[trigger] new[k]) < rt1.len() && row_has(
        rt1[new[k] as int],
        f,
    ) by {
        if k < list.len() {
            assert(list[k] < rt.len());
            assert(rt[list[k] as int] == rt1[list[k] as int]);
        }
    }
    assert forall|i: int, j: int| 0 <= i < j < new.len() implies new[i] < new[j] by {
        if j < list.len() {
            assert(list[i] < list[j]);
        } else {
            assert(list[i] < rt.len());
        }
    }
    assert forall|x: int| 0 <= x < rt1.len() && row_has(#[trigger] rt1[x], f) implies new.contains(
        x as u32,
    ) by {
        if x < r {
            assert(rt[x] == rt1[x]);
            assert(list.contains(x as u32));
            let k = choose|k: int| 0 <= k < list.len() && list[k] == x as u32;
            assert(new[k] == x as u32);
        } else {
            assert(new[list.len() as int] == r as u32);
        }
    }
}

proof fn lemma_partial_start(list: Seq<u32>, rows: Seq<Row>, r: int, f: Feature)
    requires
        0 <= r <= rows.len(),
        r <= u32::MAX,
        is_posting(list, rows.take(r), f),
    ensures
        is_partial(list, rows, r, Seq::<Seq<u8>>::empty(), f),
{
    let rt = rows.take(r);
    assert forall|k: int| 0 <= k < list.len() implies (#[trigger] list[k]) < r && row_has(
        rows[list[k] as int],
        f,
    ) by {
        assert(list[k] < rt.len());
        assert(rt[list[k] as int] == rows[list[k] as int]);
    }
    assert forall|x: int| 0 <= x < r && row_has(#[trigger] rows[x], f) implies list.contains(
        x as u32,
    ) by {
        assert(rt[x] == rows[x]);
    }
    if list.contains(r as u32) {
        let k = choose|k: int| 0 <= k < list.len() && list[k] == r as u32;
        assert(list[k] < r);
    }
}

proof fn lemma_partial_finish(list: Seq<u32>, rows: Seq<Row>, r: int, f: Feature)
    requires
        0 <= r < rows.len(),
        r <= u32::MAX,
        !(f is Bit),
        is_partial(list, rows, r, tokens(doc_text(rows[r].doc)), f),
    ensures
        is_posting(list, rows.take(r + 1), f),
{
    let rt1 = rows.take(r + 1);
    assert forall|k: int| 0 <= k < list.len() implies (#[trigger] list[k]) < rt1.len() && row_has(
        rt1[list[k] as int],
        f,
    ) by {
        assert(list[k] <= r);
        assert(rt1[list[k] as int] == rows[list[k] as int]);
        if list[k] == r {
            assert(list.contains(r as u32));
        }
    }
    assert forall|x: int| 0 <= x < rt1.len() && row_has(#[trigger] rt1[x], f) implies list.contains(
        x as u32,
    ) by {
        assert(rt1[x] == rows[x]);
    }
}

proof fn lemma_partial_step(
    list: Seq<u32>,
    rows: Seq<Row>,
    r: int,
    done: Seq<Seq<u8>>,
    t: Seq<u8>,
    f: Feature,
)
    requires
        0 <= r <= u32::MAX,
        is_partial(list, rows, r, done, f),
    ensures
        is_partial(
            if tok_has(t, f) {
                with_row(list, r as u32)
            } else {
                list
            },
            rows,
            r,
            done.push(t),
            f,
        ),
{
    let next = done.push(t);
    let new = if tok_has(t, f) {
        with_row(list, r as u32)
    } else {
        list
    };
    if toks_have(done, f) {
        let k = choose|k: int| 0 <= k < done.len() && tok_has(#[trigger] done[k], f);
        assert(tok_has(next[k], f));
    }
    if tok_has(t, f) {
        assert(tok_has(next[done.len() as int], f));
    }
    if toks_have(next, f) {
        let k = choose|k: int| 0 <= k < next.len() && tok_has(#[trigger] next[k], f);
        if k < done.len() {
            assert(tok_has(done[k], f));
        }
    }
    if tok_has(t, f) {
        if list.len() > 0 && list.last() == r as u32 {
            assert(list[list.len() - 1] == r as u32);
        } else {
            assert forall|k: int| 0 <= k < list.len() implies (#[trigger] list[k]) < r by {
                if list[k] == r {
                    if k < list.len() - 1 {
                        assert(list[k] < list[list.len() - 1]);
                    }
                }
            }
            assert(new[list.len() as int] == r as u32);
            assert forall|x: int| 0 <= x < r && row_has(#[trigger] rows[x], f) implies new.contains(
                x as u32,
            ) by {
                assert(list.contains(x as u32));
                let k = choose|k: int| 0 <= k < list.len() && list[k] == x as u32;
                assert(new[k] == x as u32);
            }
        }
    }
}

/// Appends `row` to `lists[i]` unless that list ends with it already.
fn add_to(lists: &mut Vec<Vec<u32>>, i: usize, row: u32)
    requires
        i < old(lists)@.len(),
    ensures
        final(lists)@.len() == old(lists)@.len(),
        final(lists)@[i as int]@ == with_row(old(lists)@[i as int]@, row),
        forall|j: int|
            0 <= j < old(lists)@.len() && j != i ==> (#[trigger] final(lists)@[j]) == old(
                lists,
            )@[j],
{
    let n = lists[i].len();
    if n == 0 || lists[i][n - 1] != row {
        lists[i].push(row);
    }
}

/// First position of `table` whose key is not below `key`.
fn lower_bound(table: &Vec<(u64, Vec<u32>)>, key: u64) -> (pos: usize)
    requires
        keys_ascending(table@),
    ensures
        pos <= table@.len(),
        forall|i: int| 0 <= i < pos ==> (#[trigger] table@[i]).0 < key,
        forall|i: int| pos <= i < table@.len() ==> (#[trigger] table@[i]).0 >= key,
{
    let n = table.len();
    let mut lo: usize = 0;
    let mut hi: usize = n;
    while lo < hi
        invariant
            n == table@.len(),
            lo <= hi <= n,
            keys_ascending(table@),
            forall|i: int| 0 <= i < lo ==> (#[trigger] table@[i]).0 < key,
            forall|i: int| hi <= i < n ==> (#[trigger] table@[i]).0 >= key,
        decreases hi - lo,
    {
        let mid = lo + (hi - lo) / 2;
        if table[mid].0 < key {
            lo = mid + 1;
        } else {
            hi = mid;
        }
    }
    lo
}

/// Records `row` under `key`, keeping the table sorted by key.
fn table_add(table: &mut Vec<(u64, Vec<u32>)>, key: u64, row: u32)
    requires
        keys_ascending(old(table)@),
    ensures
        keys_ascending(final(table)@),
        forall|k2: u64|
            #[trigger] entry_list(final(table)@, k2) == (if k2 == key {
                with_row(entry_list(old(table)@, key), row)
            } else {
                entry_list(old(table)@, k2)
            }),
        forall|k2: u64|
            #[trigger] has_key(final(table)@, k2) == (has_key(old(table)@, k2) || k2 == key),
{
    let ghost before = table@;
    let pos = lower_bound(table, key);
    if pos < table.len() && table[pos].0 == key {
        let n = table[pos].1.len();
        if n == 0 || table[pos].1[n - 1] != row {
            table[pos].1.push(row);
        }
        proof {
            let after = table@;
            assert(after.len() == before.len());
            assert(forall|i: int| 0 <= i < after.len() ==> (#[trigger] after[i]).0 == before[i].0);
            assert(forall|i: int|
                0 <= i < after.len() && i != pos ==> (#[trigger] after[i]) == before[i]);
            assert(after[pos as int].1@ == with_row(before[pos as int].1@, row));
            assert(keys_ascending(after)) by {
                assert forall|i: int, j: int| 0 <= i < j < after.len() implies after[i].0
                    < after[j].0 by {
                    assert(before[i].0 < before[j].0);
                }
            }
            assert forall|k2: u64| #[trigger]
                has_key(after, k2) == (has_key(before, k2) || k2 == key) by {
                if has_key(after, k2) {
                    let c = choose|c: int| 0 <= c < after.len() && (#[trigger] after[c]).0 == k2;
                    assert(before[c].0 == k2);
                }
                if has_key(before, k2) {
                    let c = choose|c: int| 0 <= c < before.len() && (#[trigger] before[c]).0 == k2;
                    assert(after[c].0 == k2);
                }
                if k2 == key {
                    assert(after[pos as int].0 == k2);
                }
            }
            assert forall|k2: u64| #[trigger]
                entry_list(after, k2) == (if k2 == key {
                    with_row(entry_list(before, key), row)
                } else {
                    entry_list(before, k2)
                }) by {
                if has_key(after, k2) {
                    let c = choose|c: int| 0 <= c < after.len() && (#[trigger] after[c]).0 == k2;
                    assert(before[c].0 == k2);
                    lemma_entry_at(after, c);
                    lemma_entry_at(before, c);
                    if k2 == key {
                        if c != pos {
                            lemma_entry_at(before, pos as int);
                            if c < pos {
                                assert(before[c].0 < before[pos as int].0);
                            } else {
                                assert(before[pos as int].0 < before[c].0);
                            }
                        }
                    } else {
                        assert(c != pos);
                    }
                }
            }
        }
    } else {
        let mut list: Vec<u32> = Vec::new();
        list.push(row);
        table.insert(pos, (key, list));
        proof {
            let after = table@;
            assert(after == before.insert(pos as int, (key, list)));
            assert(after.len() == before.len() + 1);
            assert(forall|i: int| 0 <= i < pos ==> (#[trigger] after[i]) == before[i]);
            assert(forall|i: int|
                pos < i < after.len() ==> (#[trigger] after[i]) == before[i - 1]);
            assert(after[pos as int].0 == key);
            assert(list@ =~= with_row(Seq::<u32>::empty(), row));
            assert(!has_key(before, key)) by {
                if has_key(before, key) {
                    let c = choose|c: int|
                        0 <= c < before.len() && (#[trigger] before[c]).0 == key;
                    if c < pos {
                        assert(before[c].0 < key);
                    } else if c == pos {
                    } else {
                        assert(before[pos as int].0 < before[c].0);
                        assert(before[pos as int].0 >= key);
                    }
                }
            }
            assert(keys_ascending(after)) by {
                assert forall|i: int, j: int| 0 <= i < j < after.len() implies after[i].0
                    < after[j].0 by {
                    if j < pos {
                        assert(before[i].0 < before[j].0);
                    } else if j == pos {
                        assert(before[i].0 < key);
                    } else if i < pos {
                        assert(before[i].0 < before[j - 1].0);
                    } else if i == pos {
                        assert(before[j - 1].0 >= key);
                        assert(before[j - 1].0 != key) by {
                            if before[j - 1].0 == key {
                                assert(has_key(before, key));
                            }
                        }
                    } else {
                        assert(before[i - 1].0 < before[j - 1].0);
                    }
                }
            }
            assert forall|k2: u64| #[trigger]
                has_key(after, k2) == (has_key(before, k2) || k2 == key) by {
                if has_key(after, k2) {
                    let c = choose|c: int| 0 <= c < after.len() && (#[trigger] after[c]).0 == k2;
                    if c < pos {
                        assert(before[c].0 == k2);
                    } else if c > pos {
                        assert(before[c - 1].0 == k2);
                    }
                }
                if has_key(before, k2) {
                    let c = choose|c: int| 0 <= c < before.len() && (#[trigger] before[c]).0 == k2;
                    if c < pos {
                        assert(after[c].0 == k2);
                    } else {
                        assert(after[c + 1].0 == k2);
                    }
                }
                if k2 == key {
                    assert(after[pos as int].0 == k2);
                }
            }
            assert forall|k2: u64| #[trigger]
                entry_list(after, k2) == (if k2 == key {
                    with_row(entry_list(before, key), row)
                } else {
                    entry_list(before, k2)
                }) by {
                if k2 == key {
                    lemma_entry_at(after, pos as int);
                } else if has_key(before, k2) {
                    let c = choose|c: int| 0 <= c < before.len() && (#[trigger] before[c]).0 == k2;
                    lemma_entry_at(before, c);
                    if c < pos {
                        lemma_entry_at(after, c);
                    } else {
                        lemma_entry_at(after, c + 1);
                    }
                }
            }
        }
    }
}

/// Files `row` under every feature of one of its tokens.
fn index_token(
    pref1: &mut Vec<Vec<u32>>,
    pref3: &mut Vec<Vec<u32>>,
    full6: &mut Vec<(u64, Vec<u32>)>,
    tok: &Vec<u8>,
    row: u32,
    Ghost(rows): Ghost<Seq<Row>>,
    Ghost(done): Ghost<Seq<Seq<u8>>>,
)
    requires
        tok@.len() >= 1,
        pref1_partial(old(pref1)@, rows, row as int, done),
        pref3_partial(old(pref3)@, rows, row as int, done),
        full6_partial(old(full6)@, rows, row as int, done),
    ensures
        pref1_partial(final(pref1)@, rows, row as int, done.push(tok@)),
        pref3_partial(final(pref3)@, rows, row as int, done.push(tok@)),
        full6_partial(final(full6)@, rows, row as int, done.push(tok@)),
{
    let ghost t = tok@;
    let ghost first_before = pref1@;
    let ghost three_before = pref3@;
    let ghost short_before = full6@;
    let c0: usize = tok[0] as usize;
    add_to(pref1, c0, row);
    proof {
        assert forall|c: int| 0 <= c < 256 implies is_partial(
            (#[trigger] pref1@[c])@,
            rows,
            row as int,
            done.push(t),
            Feature::First(c as u8),
        ) by {
            assert(is_partial(first_before[c]@, rows, row as int, done, Feature::First(c as u8)));
            lemma_partial_step(first_before[c]@, rows, row as int, done, t, Feature::First(c as u8));
        }
    }
    let mut hit3: Option<usize> = None;
    if tok.len() >= 3 {
        hit3 = pref3_index(tok[0], tok[1], tok[2]);
    }
    match hit3 {
        Some(idx) => {
            add_to(pref3, idx, row);
        },
        None => {},
    }
    proof {
        assert forall|i: int| 0 <= i < PREF3_SIZE implies is_partial(
            (#[trigger] pref3@[i])@,
            rows,
            row as int,
            done.push(t),
            Feature::Three(i as usize),
        ) by {
            assert(is_partial(three_before[i]@, rows, row as int, done, Feature::Three(i as usize)));
            lemma_partial_step(three_before[i]@, rows, row as int, done, t, Feature::Three(i as usize));
        }
    }
    if tok.len() <= 6 {
        let key = hash_token64(tok.as_slice());
        table_add(full6, key, row);
    }
    proof {
        assert forall|key: u64|
            is_partial(
                #[trigger] entry_list(full6@, key),
                rows,
                row as int,
                done.push(t),
                Feature::Short(key),
            ) && (has_key(full6@, key) ==> entry_list(full6@, key).len() > 0) by {
            assert(is_partial(entry_list(short_before, key), rows, row as int, done, Feature::Short(key)));
            lemma_partial_step(
                entry_list(short_before, key),
                rows,
                row as int,
                done,
                t,
                Feature::Short(key),
            );
            assert(has_key(short_before, key) ==> entry_list(short_before, key).len() > 0);
        }
    }
}

/// Files row `row` in the prefix and short-token postings, by the tokens of
/// its title, author and genres.
pub(crate) fn index_row(
    pref1: &mut Vec<Vec<u32>>,
    pref3: &mut Vec<Vec<u32>>,
    full6: &mut Vec<(u64, Vec<u32>)>,
    m: &DocMeta,
    row: u32,
    Ghost(rows): Ghost<Seq<Row>>,
)
    requires
        row < rows.len(),
        rows[row as int].doc == m@,
        pref1_ok(old(pref1)@, rows.take(row as int)),
        pref3_ok(old(pref3)@, rows.take(row as int)),
        full6_ok(old(full6)@, rows.take(row as int)),
    ensures
        pref1_ok(final(pref1)@, rows.take(row + 1)),
        pref3_ok(final(pref3)@, rows.take(row + 1)),
        full6_ok(final(full6)@, rows.take(row + 1)),
{
    let ghost r = row as int;
    let mut buf: Vec<u8> = Vec::new();
    put_bytes(&mut buf, m.title.as_slice());
    buf.push(32u8);
    put_bytes(&mut buf, m.author.as_slice());
    buf.push(32u8);
    put_bytes(&mut buf, m.genres.as_slice());
    let mut norm: Vec<u8> = Vec::new();
    normalize_ascii_inplace(buf.as_slice(), &mut norm);
    let toks = tokenize_bytes(norm.as_slice());
    let ghost all = views(toks@);
    proof {
        assert(buf@ =~= m@.title + seq![32u8] + m@.author + seq![32u8] + m@.genres);
        assert(norm@ == doc_text(rows[r].doc));
        assert(all == tokens(doc_text(rows[r].doc)));
        let none = Seq::<Seq<u8>>::empty();
        assert(all.take(0) =~= none);
        assert forall|c: int| 0 <= c < 256 implies is_partial(
            (#[trigger] pref1@[c])@,
            rows,
            r,
            none,
            Feature::First(c as u8),
        ) by {
            lemma_partial_start(pref1@[c]@, rows, r, Feature::First(c as u8));
        }
        assert forall|i: int| 0 <= i < PREF3_SIZE implies is_partial(
            (#[trigger] pref3@[i])@,
            rows,
            r,
            none,
            Feature::Three(i as usize),
        ) by {
            lemma_partial_start(pref3@[i]@, rows, r, Feature::Three(i as usize));
        }
        assert forall|key: u64|
            is_partial(#[trigger] entry_list(full6@, key), rows, r, none, Feature::Short(key))
                && (has_key(full6@, key) ==> entry_list(full6@, key).len() > 0) by {
            lemma_partial_start(entry_list(full6@, key), rows, r, Feature::Short(key));
        }
    }
    let n = toks.len();
    let mut j: usize = 0;
    while j < n
        invariant
            n == toks@.len(),
            j <= n,
            all == views(toks@),
            forall|k: int| 0 <= k < toks@.len() ==> 1 <= (#[trigger] toks@[k])@.len(),
            r == row as int,
            pref1_partial(pref1@, rows, r, all.take(j as int)),
            pref3_partial(pref3@, rows, r, all.take(j as int)),
            full6_partial(full6@, rows, r, all.take(j as int)),
        decreases n - j,
    {
        index_token(pref1, pref3, full6, &toks[j], row, Ghost(rows), Ghost(all.take(j as int)));
        proof {
            assert(all[j as int] == toks@[j as int]@);
            assert(all.take(j as int).push(toks@[j as int]@) =~= all.take(j + 1));
        }
        j = j + 1;
    }
    proof {
        assert(all.take(n as int) =~= all);
        assert forall|c: int| 0 <= c < 256 implies is_posting(
            (#[trigger] pref1@[c])@,
            rows.take(r + 1),
            Feature::First(c as u8),
        ) by {
            lemma_partial_finish(pref1@[c]@, rows, r, Feature::First(c as u8));
        }
        assert forall|i: int| 0 <= i < PREF3_SIZE implies is_posting(
            (#[trigger] pref3@[i])@,
            rows.take(r + 1),
            Feature::Three(i as usize),
        ) by {
            lemma_partial_finish(pref3@[i]@, rows, r, Feature::Three(i as usize));
        }
        assert forall|key: u64|
            is_posting(#[trigger] entry_list(full6@, key), rows.take(r + 1), Feature::Short(key))
                && (has_key(full6@, key) ==> entry_list(full6@, key).len() > 0) by {
            assert(is_partial(entry_list(full6@, key), rows, r, all, Feature::Short(key)));
            lemma_partial_finish(entry_list(full6@, key), rows, r, Feature::Short(key));
        }
    }
}

/// Files row `row` in the posting list of every bit that its signature
/// has set.
fn mark_bits(lists: &mut Vec<Vec<u32>>, sig: &[u64; 4], row: u32, Ghost(rows): Ghost<Seq<Row>>)
    requires
        row < rows.len(),
        rows[row as int].sig == sig@,
        bits_ok(old(lists)@, rows.take(row as int), 256),
    ensures
        bits_ok(final(lists)@, rows.take(row + 1), 256),
{
    let ghost r = row as int;
    let mut b: usize = 0;
    while b < 256
        invariant
            b <= 256,
            r == row as int,
            row < rows.len(),
            rows[r].sig == sig@,
            lists@.len() == 256,
            forall|x: int|
                0 <= x < b ==> is_posting(
                    (#[trigger] lists@[x])@,
                    rows.take(r + 1),
                    Feature::Bit(x as u16),
                ),
            forall|x: int|
                b <= x < 256 ==> is_posting(
                    (#[trigger] lists@[x])@,
                    rows.take(r),
                    Feature::Bit(x as u16),
                ),
        decreases 256 - b,
    {
        let w: u64 = sig[b / 64];
        let ghost before = lists@;
        proof {
            lemma_posting_extend(before[b as int]@, rows, r, Feature::Bit(b as u16));
            assert(row_has(rows[r], Feature::Bit(b as u16)) == sig_bit(sig@, b as int));
        }
        if (w >> ((b % 64) as u64)) & 1 == 1 {
            lists[b].push(row);
        }
        b = b + 1;
    }
}

/// Builds the 256 bit posting lists of the given signatures.
pub(crate) fn bit_postings_of(sigs: &Vec<[u64; 4]>, Ghost(rows): Ghost<Seq<Row>>) -> (lists: Vec<
    Vec<u32>,
>)
    requires
        rows.len() == sigs@.len(),
        sigs@.len() <= u32::MAX,
        forall|r: int| 0 <= r < rows.len() ==> (#[trigger] rows[r]).sig == sigs@[r]@,
    ensures
        bits_ok(lists@, rows, 256),
{
    let mut lists = empty_lists(256);
    let n = sigs.len();
    proof {
        assert forall|x: int| 0 <= x < 256 implies is_posting(
            (#[trigger] lists@[x])@,
            rows.take(0),
            Feature::Bit(x as u16),
        ) by {}
    }
    let mut r: usize = 0;
    while r < n
        invariant
            n == sigs@.len(),
            rows.len() == n,
            n <= u32::MAX,
            r <= n,
            forall|x: int| 0 <= x < rows.len() ==> (#[trigger] rows[x]).sig == sigs@[x]@,
            bits_ok(lists@, rows.take(r as int), 256),
        decreases n - r,
    {
        mark_bits(&mut lists, &sigs[r], r as u32, Ghost(rows));
        r = r + 1;
    }
    proof {
        assert(rows.take(n as int) =~= rows);
    }
    lists
}

/// `n` empty posting lists.
pub(crate) fn empty_lists(n: usize) -> (lists: Vec<Vec<u32>>)
    ensures
        lists@.len() == n,
        forall|i: int| 0 <= i < n ==> (#[trigger] lists@[i])@ == Seq::<u32>::empty(),
{
    let mut lists: Vec<Vec<u32>> = Vec::new();
    let mut i: usize = 0;
    while i < n
        invariant
            i <= n,
            lists@.len() == i,
            forall|k: int| 0 <= k < i ==> (#[trigger] lists@[k])@ == Seq::<u32>::empty(),
        decreases n - i,
    {
        lists.push(Vec::new());
        i = i + 1;
    }
    lists
}

/// A table that is right for every key is right entry by entry, and has
/// an entry for every short token of every row.
pub proof fn lemma_full6_entries(table: Seq<(u64, Vec<u32>)>, rows: Seq<Row>)
    requires
        full6_ok(table, rows),
    ensures
        forall|k: int|
            0 <= k < table.len() ==> {
                let e = #[trigger] table[k];
                e.1@.len() > 0 && is_posting(e.1@, rows, Feature::Short(e.0))
            },
        forall|r: int, key: u64|
            0 <= r < rows.len() && #[trigger] row_has(rows[r], Feature::Short(key)) ==> has_key(
                table,
                key,
            ),
{
    assert forall|k: int| 0 <= k < table.len() implies {
        let e = #[trigger] table[k];
        e.1@.len() > 0 && is_posting(e.1@, rows, Feature::Short(e.0))
    } by {
        lemma_entry_at(table, k);
        let l = entry_list(table, table[k].0);
        assert(is_posting(l, rows, Feature::Short(table[k].0)));
    }
    assert forall|r: int, key: u64|
        0 <= r < rows.len() && #[trigger] row_has(rows[r], Feature::Short(key)) implies has_key(
        table,
        key,
    ) by {
        let l = entry_list(table, key);
        assert(is_posting(l, rows, Feature::Short(key)));
        assert(l.contains(r as u32));
    }
}

} // verus!
