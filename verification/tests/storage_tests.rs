use strobe::ingest::{ingest_bin, ingest_lines, parse_ingest_pack};
use strobe::le::{put_u16, put_u32, read_u16, read_u32, read_u64};
use strobe::storage::{encode_pack, read_record, PackReader, PackWal, SyncMode};

fn record(id: u32, search: &[u8], title: &[u8]) -> Vec<u8> {
    encode_pack(id, search, title, b"au", b"", b"http://u", b"r")
}

#[test]
fn little_endian_values() {
    let b = [0x01u8, 0x02, 0x03, 0x04, 0x05, 0x06, 0x07, 0x08, 0x09];
    assert_eq!(read_u16(&b, 0), 0x0201);
    assert_eq!(read_u16(&b, 7), 0x0908);
    assert_eq!(read_u32(&b, 1), 0x05040302);
    assert_eq!(read_u64(&b, 0), 0x0807060504030201);
    assert_eq!(read_u64(&b, 1), 0x0908070605040302);
    let mut out = vec![0xAAu8];
    put_u16(&mut out, 0xBEEF);
    put_u32(&mut out, 0x01020304);
    assert_eq!(out, vec![0xAA, 0xEF, 0xBE, 0x04, 0x03, 0x02, 0x01]);
    assert_eq!(read_u64(&[0xFF; 8], 0), u64::MAX);
}

#[test]
fn record_layout() {
    let bytes = encode_pack(0x01020304, b"se", b"t", b"", b"ggg", b"", b"u");
    let expected: Vec<u8> = vec![
        0x04, 0x03, 0x02, 0x01, // id
        2, 0, 1, 0, 0, 0, 3, 0, 0, 0, 1, 0, // lengths
        b's', b'e', b't', b'g', b'g', b'g', b'u',
    ];
    assert_eq!(bytes, expected);
    assert_eq!(encode_pack(7, b"", b"", b"", b"", b"", b"").len(), 16);
}

#[test]
fn log_round_trip() {
    let mut log = Vec::new();
    let n = 200u32;
    for i in 0..n {
        let search = vec![b'a' + (i % 26) as u8; (i % 7) as usize];
        let title = format!("title {}", i).into_bytes();
        log.extend_from_slice(&record(i * 3, &search, &title));
    }
    let mut r = PackReader::new(log);
    for i in 0..n {
        let rec = r.next().unwrap();
        assert_eq!(rec.id, i * 3);
        assert_eq!(rec.search, vec![b'a' + (i % 26) as u8; (i % 7) as usize]);
        assert_eq!(rec.title, format!("title {}", i).into_bytes());
        assert_eq!(rec.author, b"au".to_vec());
        assert!(rec.genres.is_empty());
        assert_eq!(rec.url, b"http://u".to_vec());
        assert_eq!(rec.uri, b"r".to_vec());
    }
    assert!(r.next().is_none());
    assert!(r.next().is_none());
}

#[test]
fn longest_fields_round_trip() {
    let big = vec![7u8; 65535];
    let bytes = encode_pack(1, &big, &big, b"", b"", b"", &big);
    assert_eq!(bytes.len(), 16 + 3 * 65535);
    let (rec, next) = read_record(&bytes, 0).unwrap();
    assert_eq!(next, bytes.len());
    assert_eq!(rec.search, big);
    assert_eq!(rec.title, big);
    assert_eq!(rec.uri, big);
}

#[test]
fn torn_tail_ends_the_log() {
    let mut log = record(1, b"one", b"First");
    let whole = log.len();
    let second = record(2, b"two", b"Second");
    for cut in 0..second.len() {
        let mut torn = log.clone();
        torn.extend_from_slice(&second[..cut]);
        let mut r = PackReader::new(torn);
        assert_eq!(r.next().unwrap().id, 1);
        assert!(r.next().is_none());
        assert_eq!(r.pos, whole);
    }
    log.extend_from_slice(&second);
    let mut r = PackReader::new(log);
    assert_eq!(r.next().unwrap().id, 1);
    assert_eq!(r.next().unwrap().id, 2);
    assert!(r.next().is_none());
}

#[test]
fn empty_log() {
    let mut r = PackReader::new(Vec::new());
    assert!(r.next().is_none());
    assert!(read_record(&[], 0).is_none());
    assert!(read_record(&[0u8; 15], 0).is_none());
    assert!(read_record(&[0u8; 16], 0).is_some());
    assert!(read_record(&[0u8; 16], 1).is_none());
    assert!(read_record(&[0u8; 16], 17).is_none());
}

#[test]
fn sync_always() {
    let mut w = PackWal::new(SyncMode::Always);
    assert!(w.wrote(10));
    assert_eq!(w.unsynced, 10);
    w.synced();
    assert_eq!(w.unsynced, 0);
    let step = w.append_pack(1, b"s", b"", b"", b"", b"", b"");
    assert!(step.sync);
    assert_eq!(step.bytes.len(), 17);
    // the bytes wait until the sync is reported
    assert_eq!(w.unsynced, 17);
    w.synced();
    assert_eq!(w.unsynced, 0);
}

#[test]
fn sync_coalesced() {
    let mut w = PackWal::new(SyncMode::CoalesceBytes(40));
    let a = w.append_pack(1, b"s", b"", b"", b"", b"", b"");
    assert!(!a.sync);
    assert_eq!(w.unsynced, 17);
    let b = w.append_pack(2, b"s", b"", b"", b"", b"", b"");
    assert!(!b.sync);
    assert_eq!(w.unsynced, 34);
    let c = w.append_pack(3, b"s", b"", b"", b"", b"", b"");
    assert!(c.sync);
    assert_eq!(w.unsynced, 51);
    assert_eq!(c.bytes, encode_pack(3, b"s", b"", b"", b"", b"", b""));
    // a sync that was not reported stays due
    assert!(w.append_pack(4, b"s", b"", b"", b"", b"", b"").sync);
    assert_eq!(w.unsynced, 68);
    w.synced();
    assert_eq!(w.unsynced, 0);
    assert!(!w.append_pack(5, b"s", b"", b"", b"", b"", b"").sync);
    // threshold met exactly
    let mut w = PackWal::new(SyncMode::CoalesceBytes(17));
    assert!(w.append_pack(1, b"s", b"", b"", b"", b"", b"").sync);
    let mut w = PackWal::new(SyncMode::CoalesceBytes(0));
    assert!(w.wrote(0));
}

#[test]
fn sync_never() {
    let mut w = PackWal::new(SyncMode::Never);
    for _ in 0..10 {
        assert!(!w.append_pack(1, b"search", b"", b"", b"", b"", b"").sync);
    }
    assert_eq!(w.unsynced, 10 * 22);
    assert!(!w.wrote(usize::MAX));
    assert_eq!(w.unsynced, usize::MAX);
}

#[test]
fn packed_ingest_body() {
    let mut body = encode_pack(5, b"alpha", b"Alpha", b"A", b"g", b"u", b"r");
    body.extend_from_slice(&encode_pack(u32::MAX, b"beta", b"", b"", b"", b"", b""));
    body.extend_from_slice(&[1, 2, 3]);
    let items = parse_ingest_pack(&body);
    assert_eq!(items.len(), 2);
    assert_eq!(items[0].id, Some(5));
    assert_eq!(items[0].search, b"alpha".to_vec());
    assert_eq!(items[0].title, b"Alpha".to_vec());
    assert_eq!(items[0].author, b"A".to_vec());
    assert_eq!(items[0].genres, b"g".to_vec());
    assert_eq!(items[0].url, b"u".to_vec());
    assert_eq!(items[0].uri, b"r".to_vec());
    assert_eq!(items[1].id, None);
    assert_eq!(items[1].search, b"beta".to_vec());
    assert!(parse_ingest_pack(&[]).is_empty());
    assert!(parse_ingest_pack(&[0u8; 14]).is_empty());
    assert!(parse_ingest_pack(&[0u8; 15]).is_empty());
    assert_eq!(parse_ingest_pack(&[0u8; 16]).len(), 1);
}

#[test]
fn binary_ingest_body() {
    let mut body = Vec::new();
    body.extend_from_slice(&7u32.to_le_bytes());
    body.extend_from_slice(&3u32.to_le_bytes());
    body.extend_from_slice(b"abc");
    body.extend_from_slice(&u32::MAX.to_le_bytes());
    body.extend_from_slice(&0u32.to_le_bytes());
    body.extend_from_slice(&9u32.to_le_bytes());
    body.extend_from_slice(&100u32.to_le_bytes());
    body.extend_from_slice(b"short");
    let items = ingest_bin(&body);
    assert_eq!(items.len(), 2);
    assert_eq!(items[0].id, Some(7));
    assert_eq!(items[0].search, b"abc".to_vec());
    assert!(items[0].title.is_empty());
    assert_eq!(items[1].id, None);
    assert!(items[1].search.is_empty());
    assert!(ingest_bin(&[]).is_empty());
    assert!(ingest_bin(&[0u8; 7]).is_empty());
    assert_eq!(ingest_bin(&[0u8; 8]).len(), 1);
}

#[test]
fn line_ingest_body() {
    let items = ingest_lines(b"12\thello world\n\n  plain text  \n+7\t x \nabc\tno id\n9\t   \n\t tabbed\n4294967295\tmax\n4294967296\tover\nlast");
    let got: Vec<(Option<u32>, Vec<u8>)> =
        items.iter().map(|i| (i.id, i.search.clone())).collect();
    let want: Vec<(Option<u32>, Vec<u8>)> = vec![
        (Some(12), b"hello world".to_vec()),
        (None, b"plain text".to_vec()),
        (Some(7), b"x".to_vec()),
        (None, b"no id".to_vec()),
        (None, b"tabbed".to_vec()),
        (Some(u32::MAX), b"max".to_vec()),
        (None, b"over".to_vec()),
        (None, b"last".to_vec()),
    ];
    assert_eq!(got, want);
    assert!(ingest_lines(b"").is_empty());
    assert!(ingest_lines(b"\n\n\n").is_empty());
    assert!(ingest_lines(b" \t \n").is_empty());
    let one = ingest_lines(b" 5 \tfive\tand more\r\n");
    assert_eq!(one.len(), 1);
    assert_eq!(one[0].id, Some(5));
    assert_eq!(one[0].search, b"five\tand more".to_vec());
    let bad = ingest_lines(b"+\tx\n-3\ty\n1 2\tz\n007\tw");
    let ids: Vec<Option<u32>> = bad.iter().map(|i| i.id).collect();
    assert_eq!(ids, vec![None, None, None, Some(7)]);
}
