use collider::digest::{digest_batch, lower_ascii_bytes, truncated_digest};
use collider::text::{decimal_string, hex_string, report_line};
use collider::Collision;

#[test]
fn digest_has_requested_length() {
    for d in [0usize, 1, 2, 16, 32] {
        assert_eq!(truncated_digest("some sample", d).len(), d);
    }
}

#[test]
fn digest_is_deterministic() {
    let a = truncated_digest("the same sample", 2);
    let b = truncated_digest("the same sample", 2);
    assert_eq!(a, b);
}

#[test]
fn digest_matches_known_sha256_prefix() {
    // SHA-256 of "abc" begins ba 78 16 bf; none of those bytes is an ASCII
    // uppercase letter, so the lowercase rendering leaves them unchanged.
    assert_eq!(truncated_digest("abc", 2), vec![0xba, 0x78]);
    assert_eq!(truncated_digest("abc", 4), vec![0xba, 0x78, 0x16, 0xbf]);
}

#[test]
fn digest_of_empty_sample() {
    // SHA-256 of the empty string begins e3 b0.
    assert_eq!(truncated_digest("", 2), vec![0xe3, 0xb0]);
    assert_eq!(truncated_digest("", 0), Vec::<u8>::new());
}

#[test]
fn lowercasing_touches_only_ascii_uppercase() {
    let input = vec![0x41, 0x5a, 0x61, 0x7a, 0x40, 0x5b, 0x00, 0xff];
    let expected = vec![0x61, 0x7a, 0x61, 0x7a, 0x40, 0x5b, 0x00, 0xff];
    assert_eq!(lower_ascii_bytes(&input), expected);
}

#[test]
fn batch_maps_each_sample() {
    let samples = vec![String::from("abc"), String::from("abc"), String::from("xyz")];
    let digests = digest_batch(&samples, 2);
    assert_eq!(digests.len(), 3);
    assert_eq!(digests[0], vec![0xba, 0x78]);
    assert_eq!(digests[0], digests[1]);
    assert_ne!(digests[0], digests[2]);
}

#[test]
fn hex_rendering() {
    assert_eq!(hex_string(&vec![0xa1, 0xb2]), "a1b2");
    assert_eq!(hex_string(&vec![0x00, 0x0f]), "000f");
    assert_eq!(hex_string(&vec![]), "");
}

#[test]
fn decimal_rendering() {
    assert_eq!(decimal_string(0), "0");
    assert_eq!(decimal_string(7), "7");
    assert_eq!(decimal_string(1234), "1234");
    assert_eq!(decimal_string(10000), "10000");
}

#[test]
fn report_line_format() {
    let c = Collision { hash: vec![0xa1, 0xb2], count: 4 };
    assert_eq!(report_line(&c), "a1b2: 4");
}
