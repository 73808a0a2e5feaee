use nitc_blocks::digest::calculate_hash;
use nitc_blocks::text::{push_char, push_decimal, push_str};

#[test]
fn calculate_hash_of_empty_input() {
    assert_eq!(
        calculate_hash(b""),
        "a7ffc6f8bf1ed76651c14756a061d662f580ff4de43b49fa82d80a4b80f8434a"
    );
}

#[test]
fn calculate_hash_is_lower_case_hex_of_sha3_256() {
    let h = calculate_hash("a5b30".as_bytes());
    assert_eq!(h, "b76e9a80ad283deb31914e5854e64ab6c8856cfdb216eaedcac42c47cde01280");
    assert_eq!(h.len(), 64);
    assert!(h.chars().all(|c| c.is_ascii_digit() || ('a'..='f').contains(&c)));
}

#[test]
fn decimal_text_matches_display() {
    for n in [0, 7, 10, 12345, -1, -987, i32::MAX, i32::MIN] {
        let mut buf: Vec<u8> = Vec::new();
        push_decimal(&mut buf, n);
        assert_eq!(buf, n.to_string().into_bytes());
    }
}

#[test]
fn characters_are_encoded_as_utf8() {
    for c in ['a', 'é', '€', '😀'] {
        let mut buf: Vec<u8> = vec![1];
        push_char(&mut buf, c);
        let mut expected = vec![1u8];
        expected.extend_from_slice(c.to_string().as_bytes());
        assert_eq!(buf, expected);
    }
}

#[test]
fn multi_byte_text_hashes_like_its_utf8_bytes() {
    let mut buf: Vec<u8> = Vec::new();
    push_str(&mut buf, "é€");
    push_char(&mut buf, '😀');
    assert_eq!(
        calculate_hash(&buf),
        "e7b1fb7e2aafc5df996018db71489da1db6ba27c33eab5f5ca7aba96f97bf51b"
    );
}

#[test]
fn minimum_integer_hashes_like_its_text() {
    let mut buf: Vec<u8> = Vec::new();
    push_decimal(&mut buf, i32::MIN);
    assert_eq!(
        calculate_hash(&buf),
        "4f82ea02a4867326ef7baaabf1296770f78b7762e03f545c5a0717b3656fa78a"
    );
}
