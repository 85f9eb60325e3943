use stackmerge::ranges::compress_ranges;
use stackmerge::ranges::decompress_ranges;

fn compressed(v: &[u32]) -> String {
    String::from_utf8(compress_ranges(&v.to_vec())).unwrap()
}

fn roundtrip(v: &[u32]) {
    let text = compress_ranges(&v.to_vec());
    let back = decompress_ranges(&text).expect("a rendering must decompress");
    assert_eq!(back, v.to_vec());
}

#[test]
fn compress_examples() {
    assert_eq!(compressed(&[]), "");
    assert_eq!(compressed(&[5]), "5");
    assert_eq!(compressed(&[0, 1, 2]), "0-2");
    assert_eq!(compressed(&[0, 1, 2, 3, 7]), "0-3/7");
    assert_eq!(compressed(&[1, 3, 5]), "1/3/5");
    assert_eq!(compressed(&[0, 1, 5, 6, 9]), "0-1/5-6/9");
    assert_eq!(compressed(&[10, 11, 12, 40, 41, 42]), "10-12/40-42");
    assert_eq!(compressed(&[4294967294, 4294967295]), "4294967294-4294967295");
}

#[test]
fn decompress_reproduces_the_set() {
    roundtrip(&[]);
    roundtrip(&[0]);
    roundtrip(&[4294967295]);
    roundtrip(&[0, 1, 2, 3]);
    roundtrip(&[2, 4, 6, 8]);
    roundtrip(&[0, 1, 5, 6, 9]);
    roundtrip(&[7, 100, 101, 102, 4000]);
}

#[test]
fn decompress_examples() {
    assert_eq!(decompress_ranges(&b"0-3/7".to_vec()), Some(vec![0, 1, 2, 3, 7]));
    assert_eq!(decompress_ranges(&b"5".to_vec()), Some(vec![5]));
    assert_eq!(decompress_ranges(&b"".to_vec()), Some(vec![]));
}

#[test]
fn decompress_rejects_malformed_text() {
    assert_eq!(decompress_ranges(&b"x".to_vec()), None);
    assert_eq!(decompress_ranges(&b"1-".to_vec()), None);
    assert_eq!(decompress_ranges(&b"-1".to_vec()), None);
    assert_eq!(decompress_ranges(&b"3-1".to_vec()), None); // descending run
    assert_eq!(decompress_ranges(&b"01".to_vec()), None); // leading zero
    assert_eq!(decompress_ranges(&b"4294967296".to_vec()), None); // too large
    assert_eq!(decompress_ranges(&b"1//2".to_vec()), None);
}
