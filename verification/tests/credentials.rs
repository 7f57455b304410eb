use drive_sweep::credentials::{decode_key, key_text, KeyError};
use drive_sweep::service::children_query;

#[test]
fn key_is_decoded_from_url_safe_base64() {
    assert_eq!(decode_key("aGVsbG8="), Ok("hello".to_string()));
    assert_eq!(decode_key(""), Ok(String::new()));
    assert_eq!(
        decode_key("eyJ0eXBlIjoic2VydmljZV9hY2NvdW50In0="),
        Ok("{\"type\":\"service_account\"}".to_string())
    );
}

#[test]
fn url_safe_alphabet_is_the_one_in_use() {
    assert_eq!(decode_key("-_8="), Ok("\u{fb}\u{ff}".to_string()));
    assert_eq!(decode_key("+/8="), Err(KeyError::Encoding));
}

#[test]
fn text_that_is_not_base64_is_rejected() {
    assert_eq!(decode_key("not base64!"), Err(KeyError::Encoding));
    assert_eq!(decode_key("aGVsbG8"), Err(KeyError::Encoding));
    assert_eq!(decode_key("aGVsbG8=\n"), Err(KeyError::Encoding));
}

#[test]
fn bytes_read_as_characters_of_their_value() {
    assert_eq!(key_text(&vec![104, 105]), "hi");
    assert_eq!(key_text(&vec![0xe9]), "\u{e9}");
    assert_eq!(key_text(&Vec::new()), "");
    let all: Vec<u8> = (0..=255).collect();
    let text = key_text(&all);
    assert_eq!(text.chars().count(), 256);
    assert!(text.chars().enumerate().all(|(i, c)| c as usize == i));
}

#[test]
fn children_query_names_the_parent() {
    assert_eq!(children_query("abc123"), "'abc123' in parents");
    assert_eq!(children_query(""), "'' in parents");
}
