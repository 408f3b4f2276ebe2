use cjp2p::blocks::block_count;
use cjp2p::blocks::elapsed_since;
use cjp2p::blocks::is_past_end;
use cjp2p::codec::base64_decode;
use cjp2p::codec::hex;
use cjp2p::text::has_separator;
use cjp2p::text::same_text;

#[test]
fn hex_is_lower_case_two_digits_a_byte() {
    let h: String = hex(&vec![0x00, 0x0f, 0xa0, 0xff]).into_iter().collect();
    assert_eq!(h, "000fa0ff");
    assert!(hex(&vec![]).is_empty());
}

#[test]
fn base64_decodes_standard_padded_text() {
    assert_eq!(base64_decode("YWJj"), Some(b"abc".to_vec()));
    assert_eq!(base64_decode("YQ=="), Some(b"a".to_vec()));
    assert_eq!(base64_decode(""), Some(vec![]));
    assert_eq!(base64_decode("YQ"), None);
    assert_eq!(base64_decode("!!!!"), None);
}

#[test]
fn block_counts_round_up() {
    assert_eq!(block_count(0), 0);
    assert_eq!(block_count(1), 1);
    assert_eq!(block_count(4096), 1);
    assert_eq!(block_count(4097), 2);
    assert_eq!(block_count(0x40000), 64);
    assert_eq!(block_count(usize::MAX), usize::MAX / 4096 + 1);
    assert!(is_past_end(1, 4096));
    assert!(!is_past_end(0, 1));
    assert!(is_past_end(0, 0));
    assert!(is_past_end(usize::MAX, 5));
}

#[test]
fn elapsed_is_never_negative() {
    assert_eq!(elapsed_since(10, 3), 7);
    assert_eq!(elapsed_since(3, 10), 0);
    assert_eq!(elapsed_since(i64::MAX, i64::MIN), u64::MAX);
}

#[test]
fn separators_are_found() {
    assert!(has_separator(&"a/b".to_string()));
    assert!(has_separator(&"a\\b".to_string()));
    assert!(!has_separator(&"abc".to_string()));
}

#[test]
fn text_compares_with_characters() {
    assert!(same_text(&"héllo".to_string(), &"héllo".chars().collect()));
    assert!(!same_text(&"hello".to_string(), &"hell".chars().collect()));
    assert!(!same_text(&"hell".to_string(), &"hello".chars().collect()));
    assert!(same_text(&"".to_string(), &vec![]));
}
