use strobe::qgram::{fold4096_to_512, mix64_from3, normalize, sig256, sig4096_from_text};
use strobe::simd::{
    chosen_path, overlap_popcnt, overlap_popcnt_scalar, popcnt4, popcnt4096_pair, popcnt4096_scalar,
    popcnt4096_self, popcnt4_scalar, SimdPath,
};
use strobe::text::{
    char36, copy_range, hash_token64, is_alnum, normalize_ascii_inplace, pref3_index,
    to_lower_ascii, tokenize_bytes, PREF3_SIZE,
};

#[test]
fn lower_and_alnum() {
    assert_eq!(to_lower_ascii(b'A'), b'a');
    assert_eq!(to_lower_ascii(b'Z'), b'z');
    assert_eq!(to_lower_ascii(b'a'), b'a');
    assert_eq!(to_lower_ascii(b'@'), b'@');
    assert_eq!(to_lower_ascii(b'['), b'[');
    assert!(is_alnum(b'0') && is_alnum(b'9') && is_alnum(b'a') && is_alnum(b'Z'));
    assert!(!is_alnum(b' ') && !is_alnum(b'-') && !is_alnum(0xC3));
}

#[test]
fn base36_digits() {
    assert_eq!(char36(b'a'), Some(0));
    assert_eq!(char36(b'Z'), Some(25));
    assert_eq!(char36(b'0'), Some(26));
    assert_eq!(char36(b'9'), Some(35));
    assert_eq!(char36(b' '), None);
    assert_eq!(char36(b'_'), None);
}

#[test]
fn prefix_bucket_formula() {
    assert_eq!(pref3_index(b'a', b'a', b'a'), Some(0));
    assert_eq!(pref3_index(b'a', b'b', b'c'), Some(38));
    assert_eq!(pref3_index(b'z', b'9', b'9'), Some(33695));
    assert_eq!(pref3_index(b'9', b'9', b'9'), Some(PREF3_SIZE - 1));
    assert_eq!(pref3_index(b'C', b'h', b'A'), pref3_index(b'c', b'h', b'a'));
    assert_eq!(pref3_index(b'a', b' ', b'c'), None);
    assert_eq!(pref3_index(b'a', b'b', b'-'), None);
}

#[test]
fn normalization_examples() {
    let mut out = vec![1u8, 2, 3];
    normalize_ascii_inplace(b"Hello, World!", &mut out);
    assert_eq!(out, b"hello  world ".to_vec());
    normalize_ascii_inplace(b"", &mut out);
    assert!(out.is_empty());
    normalize_ascii_inplace(b"A-b_C\t9", &mut out);
    assert_eq!(out, b"a b c 9".to_vec());
    // bytes of a multi-byte character are separators like any other
    normalize_ascii_inplace("caf\u{e9}".as_bytes(), &mut out);
    assert_eq!(out, b"caf  ".to_vec());
    assert_eq!(normalize(b"MiXeD 42"), b"mixed 42".to_vec());
}

#[test]
fn normalization_is_idempotent() {
    let inputs: [&[u8]; 5] = [b"", b"Hello, World!", b"  a  ", b"UPPER lower 123", b"\x00\xff~{}"];
    for x in inputs {
        let once = normalize(x);
        let twice = normalize(&once);
        assert_eq!(once, twice);
        assert_eq!(once.len(), x.len());
    }
}

#[test]
fn tokenization_examples() {
    let toks = tokenize_bytes(b"  alpha beta,gamma42  ");
    assert_eq!(toks, vec![b"alpha".to_vec(), b"beta".to_vec(), b"gamma42".to_vec()]);
    assert!(tokenize_bytes(b"").is_empty());
    assert!(tokenize_bytes(b" ,;- ").is_empty());
    assert_eq!(tokenize_bytes(b"x"), vec![b"x".to_vec()]);
    assert_eq!(tokenize_bytes(b"a b"), vec![b"a".to_vec(), b"b".to_vec()]);
    assert_eq!(tokenize_bytes(b"ab"), vec![b"ab".to_vec()]);
}

#[test]
fn copy_range_copies() {
    assert_eq!(copy_range(b"abcdef", 1, 4), b"bcd".to_vec());
    assert_eq!(copy_range(b"abcdef", 3, 3), Vec::<u8>::new());
    assert_eq!(copy_range(b"abcdef", 0, 6), b"abcdef".to_vec());
}

#[test]
fn token_hash_values() {
    assert_eq!(hash_token64(b""), 0x9e3779b93051c0c9);
    assert_eq!(hash_token64(b"a"), 0x324fc3af56a97211);
    assert_eq!(hash_token64(b"beta"), 0x527085c4d267313e);
    assert_ne!(hash_token64(b"beta"), hash_token64(b"bate"));
}

#[test]
fn gram_hash_values() {
    assert_eq!(mix64_from3(b'a', b'b', b'c'), 0xf86b345273eeddc7);
    assert_eq!(mix64_from3(b'a', 0, 0), 0x405337e338614e91);
}

#[test]
fn signature_values() {
    assert_eq!(sig256(b"charleston"), [0x400408, 0x0, 0x4000000000000000, 0x0]);
    assert_eq!(sig256(b"Hello, World!"), [0x200000000000, 0x0, 0x100000000000, 0x12000000]);
    assert_eq!(sig256(b"ab"), [0x0, 0x0, 0x0, 0x8000]);
    assert_eq!(sig256(b""), [0u64; 4]);
    assert_eq!(sig4096_from_text(b""), [0u64; 64]);
    // a single byte has its own projection: four bits somewhere in the 4096
    assert_eq!(popcnt4096_self(&sig4096_from_text(b"a")), 4);
    assert_eq!(popcnt4096_self(&sig4096_from_text(b"ab")), 4);
    assert_eq!(popcnt4096_self(&sig4096_from_text(b"charleston")), 66);
    assert_eq!(popcnt4096_self(&sig4096_from_text(b"Hello, World!")), 92);
}

#[test]
fn signature_is_the_low_lanes_and_stable() {
    let full = sig4096_from_text(b"Charleston");
    let low = sig256(b"Charleston");
    assert_eq!(low, [full[0], full[1], full[2], full[3]]);
    assert_eq!(sig256(b"charleston"), sig256(b"CHARLESTON"));
    assert_eq!(sig256(b"charleston"), sig256(b"charleston"));
    assert_eq!(sig4096_from_text(b"a-b"), sig4096_from_text(b"a b"));
}

#[test]
fn fold_values() {
    let full = sig4096_from_text(b"charleston");
    assert_eq!(
        fold4096_to_512(&full),
        [
            0x8004000a14421c88,
            0x84004100102,
            0x48000000024800a0,
            0x84001600410a0,
            0x400010804000020,
            0x4000200800000,
            0x20000201000010,
            0x100203110044221
        ]
    );
    assert_eq!(fold4096_to_512(&[0u64; 64]), [0u64; 8]);
    let mut one = [0u64; 64];
    one[9] = 5;
    one[17] = 3;
    let f = fold4096_to_512(&one);
    assert_eq!(f[1], 6);
    assert_eq!(f[0], 0);
}

#[test]
fn population_counts() {
    assert_eq!(popcnt4(&[0, 0, 0, 0]), 0);
    assert_eq!(popcnt4(&[u64::MAX; 4]), 256);
    assert_eq!(popcnt4(&[1, 3, 7, 0x8000_0000_0000_0000]), 7);
    assert_eq!(popcnt4_scalar(&[0xF0, 0, 0, 1]), 5);
    assert_eq!(overlap_popcnt(&[0b1100, 0, 0, 0], &[0b0110, 0, 0, 0]), 1);
    assert_eq!(overlap_popcnt(&[u64::MAX; 4], &[u64::MAX; 4]), 256);
    assert_eq!(overlap_popcnt_scalar(&[5, 5, 5, 5], &[4, 1, 0, 7]), 4);
    let a = [0xFFu64; 64];
    let b = [0x0Fu64; 64];
    assert_eq!(popcnt4096_pair(&a, &b), 4 * 64);
    assert_eq!(popcnt4096_scalar(&a, &b), 4 * 64);
    assert_eq!(popcnt4096_self(&a), 8 * 64);
    assert_eq!(popcnt4096_self(&[u64::MAX; 64]), 4096);
}

#[test]
fn counting_paths_agree() {
    let xs: [[u64; 4]; 3] =
        [[0, 0, 0, 0], [u64::MAX, 1, 2, 3], [0xDEADBEEF, 0x1234_5678_9ABC_DEF0, 42, 1 << 63]];
    for x in xs.iter() {
        assert_eq!(popcnt4(x), popcnt4_scalar(x));
        for y in xs.iter() {
            assert_eq!(overlap_popcnt(x, y), overlap_popcnt_scalar(x, y));
        }
    }
    assert!(matches!(chosen_path(), SimdPath::Scalar));
}
