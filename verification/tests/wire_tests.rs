use std::sync::Arc;
use strobe::builder::IndexBuilder;
use strobe::index::IndexView;
use strobe::ingest::IngestItem;
use strobe::pipeline::{assign_id, flush_due};
use strobe::wire::{
    encode_hit, encode_hits_binary, parse_query_and_text, Hit, Query256, FLAG_FUZZY_JACCARD,
    FLAG_WITH_META, QUERY_FIXED_LEN,
};

fn request(k: u16, flags: u16, sig: [u64; 4]) -> Vec<u8> {
    let mut b = Vec::new();
    b.extend_from_slice(&k.to_le_bytes());
    b.extend_from_slice(&flags.to_le_bytes());
    for lane in sig {
        b.extend_from_slice(&lane.to_le_bytes());
    }
    b
}

#[test]
fn fixed_part_of_a_request() {
    let sig = [0x0102030405060708u64, u64::MAX, 0, 0x8000000000000001];
    let b = request(513, 3, sig);
    assert_eq!(b.len(), QUERY_FIXED_LEN);
    let q = Query256::from_bytes(&b);
    assert_eq!(q.k, 513);
    assert_eq!(q.flags, 3);
    assert_eq!(q.sig, sig);
    assert_eq!(FLAG_FUZZY_JACCARD, 1);
    assert_eq!(FLAG_WITH_META, 2);
}

#[test]
fn request_with_text() {
    let sig = [1u64, 2, 3, 4];
    let mut b = request(10, 1, sig);
    let (q, text) = parse_query_and_text(&b).unwrap();
    assert_eq!(q.k, 10);
    assert_eq!(q.sig, sig);
    assert!(text.is_empty());
    b.extend_from_slice(&5u16.to_le_bytes());
    b.extend_from_slice(b"hello");
    let (q, text) = parse_query_and_text(&b).unwrap();
    assert_eq!(q.flags, 1);
    assert_eq!(text, b"hello");
    // bytes after the text are not part of it
    b.extend_from_slice(b"trailing");
    let (_, text) = parse_query_and_text(&b).unwrap();
    assert_eq!(text, b"hello");
    let mut z = request(1, 0, sig);
    z.extend_from_slice(&0u16.to_le_bytes());
    let (_, text) = parse_query_and_text(&z).unwrap();
    assert!(text.is_empty());
}

#[test]
fn malformed_requests() {
    let sig = [1u64, 2, 3, 4];
    assert!(parse_query_and_text(&[]).is_err());
    assert!(parse_query_and_text(&request(1, 0, sig)[..35]).is_err());
    let mut b = request(1, 0, sig);
    b.push(5);
    assert!(parse_query_and_text(&b).is_err());
    b.push(0);
    assert!(parse_query_and_text(&b).is_err());
    b.extend_from_slice(b"hell");
    assert!(parse_query_and_text(&b).is_err());
    b.push(b'o');
    assert!(parse_query_and_text(&b).is_ok());
}

fn small_view() -> IndexView {
    let mut b = IndexBuilder::new();
    b.add(IngestItem {
        id: Some(0x0A0B0C0D),
        search: b"one".to_vec(),
        title: b"Ti".to_vec(),
        author: b"Au".to_vec(),
        genres: Vec::new(),
        url: b"url".to_vec(),
        uri: b"i".to_vec(),
    });
    b.add(IngestItem {
        id: Some(7),
        search: b"two".to_vec(),
        title: vec![b't'; 70000],
        author: Vec::new(),
        genres: Vec::new(),
        url: Vec::new(),
        uri: Vec::new(),
    });
    let first = Arc::new(b.seal_into_segment());
    b.add(IngestItem {
        id: Some(99),
        search: b"three".to_vec(),
        title: b"X".to_vec(),
        author: Vec::new(),
        genres: Vec::new(),
        url: Vec::new(),
        uri: Vec::new(),
    });
    let second = Arc::new(b.seal_into_segment());
    IndexView::from_segments(vec![first, second])
}

#[test]
fn response_without_metadata() {
    let view = small_view();
    let hits = [
        Hit { seg: 1, row: 0, score: 2.5f32.to_bits() },
        Hit { seg: 0, row: 0, score: 1.0f32.to_bits() },
    ];
    let out = encode_hits_binary(&view, &hits, false);
    let mut want = Vec::new();
    want.extend_from_slice(&2u32.to_le_bytes());
    want.extend_from_slice(&99u32.to_le_bytes());
    want.extend_from_slice(&2.5f32.to_le_bytes());
    want.extend_from_slice(&0x0A0B0C0Du32.to_le_bytes());
    want.extend_from_slice(&1.0f32.to_le_bytes());
    assert_eq!(&out[..], &want[..]);
    let none = encode_hits_binary(&view, &[], true);
    assert_eq!(&none[..], &[0u8, 0, 0, 0][..]);
}

#[test]
fn response_with_metadata() {
    let view = small_view();
    let hits = [Hit { seg: 0, row: 0, score: 3 }];
    let out = encode_hits_binary(&view, &hits, true);
    let want: Vec<u8> = vec![
        1, 0, 0, 0, // one hit
        0x0D, 0x0C, 0x0B, 0x0A, // id
        3, 0, 0, 0, // score
        2, 0, 2, 0, 0, 0, 3, 0, 1, 0, // lengths
        b'T', b'i', b'A', b'u', b'u', b'r', b'l', b'i',
    ];
    assert_eq!(&out[..], &want[..]);
    assert_eq!(encode_hit(&view, hits[0], true), want[4..].to_vec());
    assert_eq!(encode_hit(&view, hits[0], false), want[4..12].to_vec());
}

#[test]
fn long_metadata_is_cut() {
    let view = small_view();
    let piece = encode_hit(&view, Hit { seg: 0, row: 1, score: 0 }, true);
    assert_eq!(piece.len(), 8 + 10 + 65535);
    assert_eq!(&piece[8..10], &[0xFF, 0xFF]);
    assert_eq!(&piece[10..18], &[0u8; 8]);
    assert!(piece[18..].iter().all(|b| *b == b't'));
}

#[test]
fn order_of_hits() {
    let a = Hit { seg: 0, row: 5, score: 10 };
    assert!(a.precedes(&Hit { seg: 0, row: 0, score: 11 }));
    assert!(!Hit { seg: 0, row: 0, score: 11 }.precedes(&a));
    assert!(a.precedes(&Hit { seg: 0, row: 6, score: 10 }));
    assert!(a.precedes(&Hit { seg: 1, row: 5, score: 10 }));
    assert!(!Hit { seg: 1, row: 4, score: 10 }.precedes(&Hit { seg: 0, row: 4, score: 10 }));
    assert!(!a.precedes(&a));
    assert_eq!(a, Hit { seg: 0, row: 5, score: 10 });
}

#[test]
fn writer_ids() {
    let mut next = 0u32;
    assert_eq!(assign_id(None, &mut next), Some(0));
    assert_eq!(assign_id(None, &mut next), Some(1));
    assert_eq!(assign_id(Some(500), &mut next), Some(500));
    assert_eq!(next, 2);
    assert_eq!(assign_id(Some(u32::MAX), &mut next), None);
    assert_eq!(next, 2);
    next = u32::MAX;
    assert_eq!(assign_id(None, &mut next), None);
    assert_eq!(next, 0);
    assert_eq!(assign_id(None, &mut next), Some(0));
}

#[test]
fn flush_policy() {
    assert!(!flush_due(0, 4096, true));
    assert!(!flush_due(0, 0, true));
    assert!(!flush_due(10, 4096, false));
    assert!(flush_due(10, 4096, true));
    assert!(flush_due(4096, 4096, false));
    assert!(flush_due(5000, 4096, false));
    assert!(flush_due(1, 0, false));
}
