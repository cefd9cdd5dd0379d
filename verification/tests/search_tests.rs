use std::sync::Arc;
use strobe::accum::Accum;
use strobe::builder::IndexBuilder;
use strobe::index::{IndexView, Segment};
use strobe::ingest::IngestItem;
use strobe::pipeline::{assign_id, flush_due, publish, replay};
use strobe::plan::{gather_bits, pick_others, query_tokens, INTERSECT_CAP};
use strobe::postings::{contains_sorted, extend_cap, intersect_in_place_bounded_tmp, lookup_full6};
use strobe::qgram::{normalize, sig256};
use strobe::search::{
    rank_rows, with_query_text, RowFeatures, Scratch, W_EXACT_ANY, W_EXACT_LAST, W_PREFIX_PER_CHAR,
};
use strobe::simd::popcnt4;
use strobe::storage::{PackWal, SyncMode};
use strobe::text::{hash_token64, pref3_index, tokenize_bytes};
use strobe::topk::keep;
use strobe::wire::{Hit, Query256, FLAG_FUZZY_JACCARD};

fn doc(id: Option<u32>, text: &str) -> IngestItem {
    IngestItem {
        id,
        search: text.as_bytes().to_vec(),
        title: text.as_bytes().to_vec(),
        author: Vec::new(),
        genres: Vec::new(),
        url: Vec::new(),
        uri: Vec::new(),
    }
}

fn score_of(f: RowFeatures) -> f32 {
    let inter = f.inter as f32;
    let pb = f.pop as f32;
    let mut s = inter / (1.0 + 0.02 * pb);
    s += (0.25f32).min(inter * 0.02);
    s += f.prefix_bonus() as f32;
    s += f.exact_last_bonus() as f32;
    s += f.exact_any_bonus() as f32;
    if f.fuzzy {
        let union = f.union_bits() as f32;
        let j = inter / union;
        if j >= 0.05 {
            s += j * 100.0;
        }
    }
    s
}

fn key_of(f: RowFeatures) -> u32 {
    score_of(f).to_bits()
}

fn view_of(docs: &[(u32, &str)]) -> IndexView {
    let mut b = IndexBuilder::new();
    for (id, text) in docs {
        b.add(doc(Some(*id), text));
    }
    IndexView::from_segments(vec![Arc::new(b.seal_into_segment())])
}

fn ask(view: &IndexView, text: &str, k: u16, flags: u16) -> Vec<(u32, f32)> {
    let q = Query256 { k, flags, sig: sig256(text.as_bytes()) };
    let mut sc = Scratch::new();
    let mut acc = Accum::with_capacity_pow2(1024);
    let hits = view.search(q, text.as_bytes(), &key_of, &mut sc, &mut acc);
    hits.iter()
        .map(|h| {
            (view.segments[h.seg as usize].meta[h.row as usize].id, f32::from_bits(h.score))
        })
        .collect()
}

#[test]
fn exact_short_token_wins() {
    let view = view_of(&[(1, "alpha beta"), (2, "alpha gamma")]);
    let hits = ask(&view, "beta", 2, 0);
    assert!(!hits.is_empty());
    assert_eq!(hits[0].0, 1);
    assert!(hits[0].1 >= 1000.0);
    let want = score_of(RowFeatures {
        inter: 1,
        pop: 6,
        qpop: 1,
        prefix_chars: 4,
        exact_last: true,
        exact_any: false,
        fuzzy: false,
    });
    assert_eq!(hits[0].1, want);
    assert_eq!(want, 1.0f32 / (1.0 + 0.02 * 6.0) + 0.02 + 120.0 + 1000.0);
    for h in hits.iter().skip(1) {
        assert_eq!(h.0, 2);
        assert!(h.1 < hits[0].1 - 900.0);
    }
}

#[test]
fn prefix_bonus_scales_with_length() {
    let view = view_of(&[(10, "charleston")]);
    let mut last = 0.0f32;
    for (q, chars) in [("char", 4u32), ("charl", 5), ("charlesto", 9), ("charleston", 10)] {
        let hits = ask(&view, q, 3, 0);
        assert_eq!(hits.len(), 1, "query {}", q);
        assert_eq!(hits[0].0, 10);
        assert!(hits[0].1 > last);
        assert!(hits[0].1 >= (chars * W_PREFIX_PER_CHAR) as f32);
        last = hits[0].1;
    }
    // a row that shares no signature bit with the query is not scored
    assert_eq!(sig256(b"cha"), [0u64; 4]);
    assert!(ask(&view, "cha", 3, 0).is_empty());
}

#[test]
fn prefix_bonus_is_capped_at_ten_characters() {
    let view = view_of(&[(1, "internationalization")]);
    let a = ask(&view, "internatio", 1, 0);
    let b = ask(&view, "internationaliz", 1, 0);
    assert_eq!(a.len(), 1);
    assert_eq!(b.len(), 1);
    let fa = a[0].1 - 300.0;
    let fb = b[0].1 - 300.0;
    assert!(fa > 0.0 && fa < 30.0);
    assert!(fb > 0.0 && fb < 30.0);
}

#[test]
fn fuzzy_rescue() {
    let view = view_of(&[(42, "michelangelo")]);
    let plain = ask(&view, "michaelangelo", 1, 0);
    let fuzzy = ask(&view, "michaelangelo", 1, FLAG_FUZZY_JACCARD);
    assert_eq!(plain.len(), 1);
    assert_eq!(fuzzy.len(), 1);
    assert_eq!(fuzzy[0].0, 42);
    assert!(fuzzy[0].1 - plain[0].1 >= 5.0);
    // four shared bits of five and four: the union has five
    assert_eq!(fuzzy[0].1, plain[0].1 + (4.0f32 / 5.0) * 100.0);
}

#[test]
fn other_short_tokens_add_once() {
    let view = view_of(&[(1, "red fox den"), (2, "red owl den")]);
    let hits = ask(&view, "red fox den", 5, 0);
    assert_eq!(hits.len(), 2);
    assert_eq!(hits[0].0, 1);
    assert_eq!(hits[1].0, 2);
    // both rows: prefix 90 and exact last 1000 and one bonus for "red"
    let extra = (3 * W_PREFIX_PER_CHAR + W_EXACT_LAST + W_EXACT_ANY) as f32;
    assert!(hits[0].1 > extra && hits[0].1 < extra + 30.0);
    assert!(hits[1].1 > extra && hits[1].1 < extra + 30.0);
    assert!(hits[0].1 > hits[1].1);
}

#[test]
fn no_text_means_no_bonus() {
    let view = view_of(&[(1, "alpha beta"), (2, "alpha gamma")]);
    let q = Query256 { k: 5, flags: 0, sig: sig256(b"alpha") };
    let mut sc = Scratch::new();
    let mut acc = Accum::with_capacity_pow2(64);
    let hits = view.search(q, b"", &key_of, &mut sc, &mut acc);
    assert!(!hits.is_empty());
    for h in hits.iter() {
        assert!(f32::from_bits(h.score) < 30.0);
    }
    for w in hits.windows(2) {
        assert!(w[1].precedes(&w[0]));
    }
}

#[test]
fn empty_view_and_zero_k() {
    let empty = IndexView::from_segments(Vec::new());
    assert!(ask(&empty, "anything", 10, 0).is_empty());
    assert_eq!(empty.total_docs(), 0);
    let view = view_of(&[(10, "charleston")]);
    assert!(ask(&view, "charleston", 0, 0).is_empty());
    assert_eq!(ask(&view, "charleston", 1, 0).len(), 1);
    let mut b = IndexBuilder::new();
    let none = IndexView::from_segments(vec![Arc::new(b.seal_into_segment())]);
    assert!(ask(&none, "charleston", 5, 0).is_empty());
}

#[test]
fn best_k_over_segments_best_first() {
    let mut segs = Vec::new();
    let mut b = IndexBuilder::new();
    for s in 0..4u32 {
        for i in 0..5u32 {
            b.add(doc(Some(s * 100 + i), &format!("charleston {}", "x".repeat((s + i) as usize))));
        }
        segs.push(Arc::new(b.seal_into_segment()));
    }
    let view = IndexView::from_segments(segs);
    assert_eq!(view.total_docs(), 20);
    let all = ask(&view, "charleston", 100, 0);
    assert_eq!(all.len(), 20);
    for w in all.windows(2) {
        assert!(w[0].1 >= w[1].1);
    }
    let top = ask(&view, "charleston", 7, 0);
    assert_eq!(top.len(), 7);
    for (a, b) in top.iter().zip(all.iter()) {
        assert_eq!(a.1, b.1);
    }
    assert!(top[6].1 >= all[7].1);
}

#[test]
fn view_atomicity() {
    let mut b = IndexBuilder::new();
    for i in 0..3u32 {
        b.add(doc(Some(i), "first batch"));
    }
    let mut current = publish(&mut b, &IndexView::from_segments(Vec::new()));
    let captured = current.clone();
    assert_eq!(captured.total_docs(), 3);
    for i in 0..100u32 {
        b.add(doc(Some(1000 + i), "later"));
        current = publish(&mut b, &current);
    }
    assert_eq!(captured.segments.len(), 1);
    assert_eq!(captured.total_docs(), 3);
    assert_eq!(current.segments.len(), 101);
    assert_eq!(current.total_docs(), 103);
    assert!(Arc::ptr_eq(&captured.segments[0], &current.segments[0]));
    assert_eq!(current.segments[100].meta[0].id, 1099);
    assert_eq!(b.len(), 0);
}

#[test]
fn bounded_intersection() {
    let mut b = IndexBuilder::new();
    for i in 0..2000u32 {
        b.add(doc(Some(i), &format!("common word{}", i)));
    }
    let seg = b.seal_into_segment();
    let text = b"common";
    let q = Query256 { k: 10, flags: 0, sig: sig256(text) };
    let mut sc = Scratch::new();
    let mut acc = Accum::with_capacity_pow2(1024);
    let mut out = Vec::new();
    seg.search_into_v2(0, q, text, &key_of, &mut sc, &mut acc, &mut out);
    assert_eq!(sc.cand.len(), INTERSECT_CAP);
    assert!(sc.scored.len() <= INTERSECT_CAP);
    assert_eq!(sc.scored.len(), sc.scores.len());
    assert!(out.len() <= 10);
    assert_eq!(sc.qbuf, b"common".to_vec());
    assert!(sc.tmp.is_empty());
    for w in sc.cand.windows(2) {
        assert!(w[0] < w[1]);
    }
    for w in out.windows(2) {
        assert!(w[0].precedes(&w[1]));
    }
}

#[test]
fn recovery_after_restart() {
    let mut wal = PackWal::new(SyncMode::CoalesceBytes(1 << 20));
    let mut log: Vec<u8> = Vec::new();
    let mut builder = IndexBuilder::new();
    let mut view = IndexView::from_segments(Vec::new());
    let mut next_id = 0u32;
    let mut ids = std::collections::BTreeSet::new();
    for i in 0..10_000u32 {
        let given = if i % 2 == 0 { Some(i / 2) } else { None };
        let mut item = doc(given, &format!("entry n{}", i));
        // an assigned id takes the row of the caller's document with that id
        if i == 4243 {
            item = doc(given, "charleston harbor");
        }
        let gid = match assign_id(item.id, &mut next_id) {
            Some(g) => g,
            None => continue,
        };
        let step = wal.append_pack(
            gid,
            &item.search,
            &item.title,
            &item.author,
            &item.genres,
            &item.url,
            &item.uri,
        );
        log.extend_from_slice(&step.bytes);
        if step.sync {
            wal.synced();
        }
        item.id = Some(gid);
        builder.add(item);
        ids.insert(gid);
        if flush_due(builder.docs_since_seal(), 4096, false) {
            view = publish(&mut builder, &view);
        }
    }
    if flush_due(builder.docs_since_seal(), 4096, true) {
        view = publish(&mut builder, &view);
    }
    assert_eq!(next_id, 5000);
    let before = ask(&view, "charleston", 1, 0);
    assert_eq!(before.len(), 1);
    assert_eq!(before[0].0, 2121);

    let again = replay(log.clone(), 200_000);
    assert_eq!(again.segments.len(), 1);
    assert_eq!(again.total_docs(), ids.len());
    let after = ask(&again, "charleston", 1, 0);
    assert_eq!(after.len(), 1);
    assert_eq!(after[0].0, before[0].0);
    assert_eq!(after[0].1, before[0].1);

    // sealing every 1000 rows keeps every record that a segment saw first
    let chunks = replay(log, 1000);
    assert!(chunks.segments.len() >= 5);
    assert!(chunks.total_docs() >= again.total_docs());
    for s in chunks.segments.iter().take(chunks.segments.len() - 1) {
        assert_eq!(s.len(), 1000);
    }
}

fn check_segment(seg: &Segment) {
    let n = seg.len();
    assert_eq!(seg.s1.len(), n);
    assert_eq!(seg.pop.len(), n);
    assert_eq!(seg.meta.len(), n);
    assert_eq!(seg.bit_postings.len(), 256);
    assert_eq!(seg.pref1.len(), 256);
    assert_eq!(seg.pref3.len(), 46656);
    for r in 0..n {
        let sig = [seg.s0[r], seg.s1[r], seg.s2[r], seg.s3[r]];
        assert_eq!(seg.pop[r] as u32, popcnt4(&sig));
    }
    for b in 0..256usize {
        let want: Vec<u32> = (0..n as u32)
            .filter(|r| {
                let lanes = [
                    seg.s0[*r as usize],
                    seg.s1[*r as usize],
                    seg.s2[*r as usize],
                    seg.s3[*r as usize],
                ];
                (lanes[b / 64] >> (b % 64)) & 1 == 1
            })
            .collect();
        assert_eq!(seg.bit_postings[b], want);
        assert_eq!(seg.bit_freq[b] as usize, want.len());
    }
    let mut first = vec![Vec::new(); 256];
    let mut three = std::collections::BTreeMap::new();
    let mut short = std::collections::BTreeMap::new();
    for r in 0..n {
        let m = &seg.meta[r];
        let mut text = m.title.clone();
        text.push(b' ');
        text.extend_from_slice(&m.author);
        text.push(b' ');
        text.extend_from_slice(&m.genres);
        for t in tokenize_bytes(&normalize(&text)) {
            let l: &mut Vec<u32> = &mut first[t[0] as usize];
            if l.last() != Some(&(r as u32)) {
                l.push(r as u32);
            }
            if t.len() >= 3 {
                let l: &mut Vec<u32> =
                    three.entry(pref3_index(t[0], t[1], t[2]).unwrap()).or_default();
                if l.last() != Some(&(r as u32)) {
                    l.push(r as u32);
                }
            }
            if t.len() <= 6 {
                let l: &mut Vec<u32> = short.entry(hash_token64(&t)).or_default();
                if l.last() != Some(&(r as u32)) {
                    l.push(r as u32);
                }
            }
        }
    }
    for c in 0..256 {
        assert_eq!(seg.pref1[c], first[c]);
    }
    for i in 0..46656usize {
        match three.get(&i) {
            Some(l) => assert_eq!(&seg.pref3[i], l),
            None => assert!(seg.pref3[i].is_empty()),
        }
    }
    let want: Vec<(u64, Vec<u32>)> = short.into_iter().collect();
    assert_eq!(seg.full6, want);
}

#[test]
fn sealed_segment_holds_its_invariants() {
    let mut b = IndexBuilder::new();
    let words = ["alpha", "beta", "gamma", "delta", "a", "of", "the", "charleston", "x9", "Q"];
    for i in 0..60u32 {
        let title = format!(
            "{} {} {}",
            words[(i % 10) as usize],
            words[((i * 7 + 3) % 10) as usize],
            words[(i % 10) as usize]
        );
        b.add(IngestItem {
            id: Some(i),
            search: format!("{} extra{}", title, i).into_bytes(),
            title: title.into_bytes(),
            author: words[((i + 1) % 10) as usize].as_bytes().to_vec(),
            genres: format!("g{}-{}", i % 4, words[(i % 3) as usize]).into_bytes(),
            url: b"u".to_vec(),
            uri: b"r".to_vec(),
        });
    }
    let seg = b.seal_into_segment();
    assert_eq!(seg.len(), 60);
    assert!(!seg.is_empty());
    check_segment(&seg);
    let empty = b.seal_into_segment();
    assert!(empty.is_empty());
    check_segment(&empty);
}

#[test]
fn builder_replaces_rows_with_the_same_id() {
    let mut b = IndexBuilder::new();
    assert_eq!(b.len(), 0);
    b.add(doc(Some(5), "first"));
    b.add(doc(Some(9), "second"));
    b.add(doc(Some(5), "third"));
    assert_eq!(b.len(), 2);
    assert_eq!(b.docs_since_seal(), 2);
    // without an id a document gets the next row number
    b.add(doc(None, "fourth"));
    assert_eq!(b.len(), 3);
    // which may be taken already
    b.add(doc(Some(3), "fifth"));
    b.add(doc(None, "sixth"));
    assert_eq!(b.len(), 5);
    b.add(doc(None, "seventh"));
    assert_eq!(b.len(), 5);
    let seg = b.seal_into_segment();
    let ids: Vec<u32> = seg.meta.iter().map(|m| m.id).collect();
    assert_eq!(ids, vec![5, 9, 2, 3, 4]);
    // the seventh got id 5, the number of rows then, and so replaced row 0
    assert_eq!(seg.meta[0].title, b"seventh".to_vec());
    assert_eq!(seg.meta[1].title, b"second".to_vec());
    assert_eq!(seg.meta[4].title, b"sixth".to_vec());
    assert_eq!([seg.s0[0], seg.s1[0], seg.s2[0], seg.s3[0]], sig256(b"seventh"));
    assert_eq!([seg.s0[1], seg.s1[1], seg.s2[1], seg.s3[1]], sig256(b"second"));
    assert_eq!(b.len(), 0);
    assert_eq!(b.docs_since_seal(), 0);
    b.add(doc(Some(5), "again"));
    assert_eq!(b.len(), 1);
}

#[test]
fn signature_comes_from_search_and_postings_from_metadata() {
    let mut b = IndexBuilder::new();
    b.add(IngestItem {
        id: Some(1),
        search: b"charleston".to_vec(),
        title: b"Zulu".to_vec(),
        author: b"Yankee".to_vec(),
        genres: b"xray".to_vec(),
        url: b"notindexed".to_vec(),
        uri: b"norhere".to_vec(),
    });
    let seg = b.seal_into_segment();
    assert_eq!([seg.s0[0], seg.s1[0], seg.s2[0], seg.s3[0]], sig256(b"charleston"));
    assert_eq!(seg.pref1[b'z' as usize], vec![0]);
    assert_eq!(seg.pref1[b'y' as usize], vec![0]);
    assert_eq!(seg.pref1[b'x' as usize], vec![0]);
    assert!(seg.pref1[b'c' as usize].is_empty());
    assert!(seg.pref1[b'n' as usize].is_empty());
    assert_eq!(seg.pref3[pref3_index(b'z', b'u', b'l').unwrap()], vec![0]);
    assert_eq!(seg.full6.len(), 3);
    assert!(lookup_full6(&seg.full6, hash_token64(b"zulu")).is_some());
    assert!(lookup_full6(&seg.full6, hash_token64(b"yankee")).is_some());
    assert!(lookup_full6(&seg.full6, hash_token64(b"charle")).is_none());
}

#[test]
fn sorted_list_helpers() {
    let v = [1u32, 4, 9, 16, 25];
    for x in 0..30u32 {
        assert_eq!(contains_sorted(&v, x), v.contains(&x));
    }
    assert!(!contains_sorted(&[], 3));
    let mut out = vec![7u32];
    extend_cap(&mut out, &v, 4);
    assert_eq!(out, vec![7, 1, 4, 9]);
    extend_cap(&mut out, &v, 4);
    assert_eq!(out, vec![7, 1, 4, 9]);
    extend_cap(&mut out, &v, 2);
    assert_eq!(out, vec![7, 1, 4, 9]);
    let mut out = Vec::new();
    extend_cap(&mut out, &v, 100);
    assert_eq!(out, v.to_vec());
    let pairs = vec![(3u64, vec![1u32]), (10, vec![2, 3]), (u64::MAX, vec![4])];
    assert_eq!(lookup_full6(&pairs, 3), Some(0));
    assert_eq!(lookup_full6(&pairs, 10), Some(1));
    assert_eq!(lookup_full6(&pairs, u64::MAX), Some(2));
    assert_eq!(lookup_full6(&pairs, 4), None);
    assert_eq!(lookup_full6(&pairs, 0), None);
    assert_eq!(lookup_full6(&Vec::new(), 0), None);
}

#[test]
fn bounded_intersections() {
    let mut tmp = vec![99u32];
    let mut out = vec![1u32, 2, 3, 5, 8, 13];
    intersect_in_place_bounded_tmp(&mut out, &[2, 3, 4, 5, 13, 21], 10, &mut tmp);
    assert_eq!(out, vec![2, 3, 5, 13]);
    assert_eq!(tmp, vec![2, 3, 5, 13]);
    let mut out = vec![1u32, 2, 3, 5, 8, 13];
    intersect_in_place_bounded_tmp(&mut out, &[2, 3, 4, 5, 13, 21], 2, &mut tmp);
    assert_eq!(out, vec![2, 3]);
    let mut out = vec![1u32, 2, 3];
    intersect_in_place_bounded_tmp(&mut out, &[], 10, &mut tmp);
    assert!(out.is_empty());
    assert_eq!(tmp, vec![2, 3]);
    let mut out = Vec::new();
    intersect_in_place_bounded_tmp(&mut out, &[1, 2], 10, &mut tmp);
    assert!(out.is_empty());
    let mut out = vec![1u32, 3, 5];
    intersect_in_place_bounded_tmp(&mut out, &[2, 4, 6], 10, &mut tmp);
    assert!(out.is_empty());
    let mut out = vec![1u32, 3, 5];
    intersect_in_place_bounded_tmp(&mut out, &[1, 3, 5], 0, &mut tmp);
    assert!(out.is_empty());
}

#[test]
fn query_bits_rarest_first() {
    let mut freq = vec![0u32; 256];
    freq[0] = 5;
    freq[1] = 2;
    freq[64] = 2;
    freq[255] = 9;
    freq[130] = 0;
    let sig = [0b11u64, 1, 1 << 2, 1 << 63];
    let mut qbits = vec![7u16];
    gather_bits(&sig, &freq, &mut qbits);
    assert_eq!(qbits, vec![130, 1, 64, 0, 255]);
    gather_bits(&[0; 4], &freq, &mut qbits);
    assert!(qbits.is_empty());
    gather_bits(&[u64::MAX; 4], &vec![1u32; 256], &mut qbits);
    assert_eq!(qbits, (0..256u16).collect::<Vec<u16>>());
}

#[test]
fn query_token_selection() {
    let mut qbuf = Vec::new();
    let toks = query_tokens(b"The Quick-Brown extraordinary fox A b Cd lastone", &mut qbuf);
    assert_eq!(qbuf, b"the quick brown extraordinary fox a b cd lastone".to_vec());
    assert_eq!(toks.len(), 9);
    // the first four short ones of all but the last
    assert_eq!(pick_others(&toks), vec![0, 1, 2, 4]);
    assert!(pick_others(&Vec::new()).is_empty());
    assert!(pick_others(&vec![b"one".to_vec()]).is_empty());
    assert_eq!(pick_others(&vec![b"toolongtoken".to_vec(), b"x".to_vec()]), Vec::<usize>::new());
    assert_eq!(pick_others(&vec![b"sixsix".to_vec(), b"x".to_vec()]), vec![0]);
}

#[test]
fn keeping_the_best() {
    let h = |score: u32, row: u32| Hit { seg: 0, row, score };
    let mut kept = Vec::new();
    for (s, r) in [(5, 1), (3, 2), (9, 3), (3, 4), (7, 5), (1, 6), (9, 7)] {
        keep(&mut kept, h(s, r), 3);
    }
    assert_eq!(kept, vec![h(7, 5), h(9, 3), h(9, 7)]);
    // with the same score the higher row is the better
    let mut kept = vec![h(3, 2)];
    keep(&mut kept, h(3, 1), 1);
    assert_eq!(kept, vec![h(3, 2)]);
    keep(&mut kept, h(3, 9), 1);
    assert_eq!(kept, vec![h(3, 9)]);
    // then the higher segment
    keep(&mut kept, Hit { seg: 1, row: 9, score: 3 }, 1);
    assert_eq!(kept, vec![Hit { seg: 1, row: 9, score: 3 }]);
    keep(&mut kept, h(3, 9), 1);
    assert_eq!(kept, vec![Hit { seg: 1, row: 9, score: 3 }]);
    keep(&mut kept, h(2, 100), 1);
    assert_eq!(kept, vec![Hit { seg: 1, row: 9, score: 3 }]);
    let mut none = Vec::new();
    keep(&mut none, h(1, 1), 0);
    assert!(none.is_empty());
    let mut two = Vec::new();
    for r in 0..5 {
        keep(&mut two, h(4, r), 2);
    }
    assert_eq!(two, vec![h(4, 3), h(4, 4)]);
}

#[test]
fn ranking_rows() {
    let mut acc = Accum::with_capacity_pow2(8);
    let mut out = vec![Hit { seg: 9, row: 9, score: 9 }];
    rank_rows(2, &vec![1, 4, 6, 7], &vec![10, 40, 5, 40], 2, &mut acc, &mut out);
    assert_eq!(
        out,
        vec![
            Hit { seg: 9, row: 9, score: 9 },
            Hit { seg: 2, row: 4, score: 40 },
            Hit { seg: 2, row: 7, score: 40 },
        ]
    );
    assert_eq!(acc.iter_touched().clone(), vec![1u32, 4, 6, 7]);
    // a full table drops the rows that come too late
    let mut small = Accum::with_capacity_pow2(2);
    let mut out = Vec::new();
    rank_rows(0, &vec![1, 4, 6, 7], &vec![10, 40, 50, 60], 10, &mut small, &mut out);
    assert_eq!(out, vec![Hit { seg: 0, row: 1, score: 10 }, Hit { seg: 0, row: 4, score: 40 }]);
    let mut out = Vec::new();
    rank_rows(0, &Vec::new(), &Vec::new(), 10, &mut small, &mut out);
    assert!(out.is_empty());
    // equal scores: the higher row is reported
    let mut out = Vec::new();
    rank_rows(0, &vec![0, 1], &vec![7, 7], 1, &mut acc, &mut out);
    assert_eq!(out, vec![Hit { seg: 0, row: 1, score: 7 }]);
    let mut out = Vec::new();
    rank_rows(3, &vec![2, 5, 8, 9], &vec![7, 7, 7, 6], 2, &mut acc, &mut out);
    assert_eq!(out, vec![Hit { seg: 3, row: 5, score: 7 }, Hit { seg: 3, row: 8, score: 7 }]);
}

#[test]
fn equal_scores_rank_the_higher_row_first() {
    let view = view_of(&[(1, "charleston"), (2, "charleston"), (3, "charleston")]);
    let one = ask(&view, "charleston", 1, 0);
    assert_eq!(one.len(), 1);
    assert_eq!(one[0].0, 3);
    let two = ask(&view, "charleston", 2, 0);
    assert_eq!(two.iter().map(|h| h.0).collect::<Vec<u32>>(), vec![3, 2]);
    assert_eq!(two[0].1, two[1].1);
    let all = ask(&view, "charleston", 9, 0);
    assert_eq!(all.iter().map(|h| h.0).collect::<Vec<u32>>(), vec![3, 2, 1]);
    // across segments the higher segment comes first
    let mut b = IndexBuilder::new();
    b.add(doc(Some(10), "charleston"));
    let first = Arc::new(b.seal_into_segment());
    b.add(doc(Some(20), "charleston"));
    let second = Arc::new(b.seal_into_segment());
    let both = IndexView::from_segments(vec![first, second]);
    let top = ask(&both, "charleston", 1, 0);
    assert_eq!(top.len(), 1);
    assert_eq!(top[0].0, 20);
}

#[test]
fn feature_bonuses() {
    let f = RowFeatures {
        inter: 3,
        pop: 10,
        qpop: 4,
        prefix_chars: 7,
        exact_last: true,
        exact_any: false,
        fuzzy: true,
    };
    assert_eq!(f.prefix_bonus(), 210);
    assert_eq!(f.exact_last_bonus(), 1000);
    assert_eq!(f.exact_any_bonus(), 0);
    assert_eq!(f.union_bits(), 11);
    let g = RowFeatures { exact_last: false, exact_any: true, prefix_chars: 0, ..f };
    assert_eq!(g.prefix_bonus(), 0);
    assert_eq!(g.exact_last_bonus(), 0);
    assert_eq!(g.exact_any_bonus(), 200);
    let one = RowFeatures { inter: 1, pop: 1, qpop: 1, ..f };
    assert_eq!(one.union_bits(), 1);
}

#[test]
fn query_text_is_handed_on() {
    let n = with_query_text(b"hello", |t: &[u8]| t.len());
    assert_eq!(n, 5);
}

#[test]
fn replayed_rows_are_searched_alike() {
    let texts = ["charleston harbor", "charles dickens", "charlotte bronte", "zebra crossing"];
    let mut wal = PackWal::new(SyncMode::Never);
    let mut log: Vec<u8> = Vec::new();
    let mut b = IndexBuilder::new();
    for (i, t) in texts.iter().enumerate() {
        let item = doc(Some(100 + i as u32), t);
        let step = wal.append_pack(
            100 + i as u32,
            &item.search,
            &item.title,
            &item.author,
            &item.genres,
            &item.url,
            &item.uri,
        );
        log.extend_from_slice(&step.bytes);
        b.add(item);
    }
    let live = publish(&mut b, &IndexView::from_segments(Vec::new()));
    let again = replay(log, 200_000);
    assert_eq!(again.segments.len(), 1);
    assert_eq!(live.segments[0].bit_postings, again.segments[0].bit_postings);
    assert_eq!(live.segments[0].pref1, again.segments[0].pref1);
    assert_eq!(live.segments[0].full6, again.segments[0].full6);
    for (q, flags) in [("charles", 0u16), ("charl", 1), ("zebra", 0), ("bronte", 1), ("none", 0)] {
        assert_eq!(ask(&live, q, 3, flags), ask(&again, q, 3, flags));
    }
}
