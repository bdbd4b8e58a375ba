use wikipedia_core::filename_encoding::{encode_staticmcp_filename, MAX_FILENAME_LENGTH};

#[test]
fn test_basic_encoding() {
    assert_eq!(encode_staticmcp_filename("Hello World"), "hello_world");
    assert_eq!(encode_staticmcp_filename("Test-123"), "test-123");
}

#[test]
fn test_unicode_normalization() {
    assert_eq!(
        encode_staticmcp_filename("François Mitterrand"),
        "francois_mitterrand"
    );
    assert_eq!(encode_staticmcp_filename("José María"), "jose_maria");
    assert_eq!(encode_staticmcp_filename("Björk"), "bjork");
}

#[test]
fn test_long_filename() {
    let long_name = "A".repeat(250);
    let encoded = encode_staticmcp_filename(&long_name);
    assert!(encoded.len() <= MAX_FILENAME_LENGTH);
    assert!(encoded.contains("_"));
}

#[test]
fn test_filename_encoding_collision() {
    let title1 = "Test/Article";
    let title2 = "Test Article";
    let title3 = "Test_Article";

    let encoded1 = encode_staticmcp_filename(title1);
    let encoded2 = encode_staticmcp_filename(title2);
    let encoded3 = encode_staticmcp_filename(title3);

    assert_eq!(encoded1, "test_article");
    assert_eq!(encoded2, "test_article");
    assert_eq!(encoded3, "test_article");
}

#[test]
fn encoding_is_stable_across_calls() {
    let long_name = "Chronicle ".repeat(40);
    assert_eq!(
        encode_staticmcp_filename(&long_name),
        encode_staticmcp_filename(&long_name)
    );
    assert_eq!(encode_staticmcp_filename("Roman Empire"), "roman_empire");
}

#[test]
fn long_titles_end_in_sixteen_hex_digits() {
    let long_name = "A".repeat(250);
    let encoded = encode_staticmcp_filename(&long_name);
    assert_eq!(encoded.chars().count(), MAX_FILENAME_LENGTH);
    assert!(encoded.starts_with(&"a".repeat(183)));
    let suffix: Vec<char> = encoded.chars().skip(183).collect();
    assert_eq!(suffix[0], '_');
    assert_eq!(suffix.len(), 17);
    for c in &suffix[1..] {
        assert!(c.is_ascii_digit() || ('a'..='f').contains(c));
    }
}

#[test]
fn distinct_long_titles_differ_by_hash() {
    let a = format!("{}x", "A".repeat(250));
    let b = format!("{}y", "A".repeat(250));
    assert_ne!(encode_staticmcp_filename(&a), encode_staticmcp_filename(&b));
}

#[test]
fn title_at_the_bound_is_not_hashed() {
    let name = "b".repeat(200);
    assert_eq!(encode_staticmcp_filename(&name), name);
    let over = "b".repeat(201);
    assert_ne!(encode_staticmcp_filename(&over), over);
}

#[test]
fn accented_and_plain_forms_collide() {
    assert_eq!(
        encode_staticmcp_filename("José María"),
        encode_staticmcp_filename("jose maria")
    );
    assert_eq!(encode_staticmcp_filename("Jose\u{301} Mari\u{301}a"), "jose_maria");
}

#[test]
fn other_characters_become_underscores() {
    assert_eq!(encode_staticmcp_filename("C++ (language)"), "c____language_");
    assert_eq!(encode_staticmcp_filename(""), "");
}
