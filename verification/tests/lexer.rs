use deadcode_core::{split_code_and_strings, tally, utf8_len, StringHashMap};

#[test]
fn strips_line_comments() {
    let (code, _) = split_code_and_strings("let a = 1 // mentions ghostName\nlet b = 2");
    assert!(!code.contains("ghostName"));
    assert!(code.contains("let b"));
}

#[test]
fn strips_nested_block_comments() {
    let (code, _) = split_code_and_strings("a /* x /* y */ z */ b");
    assert!(!code.contains('x'));
    assert!(code.contains('a') && code.contains('b'));
}

#[test]
fn captures_string_contents_separately() {
    let (code, strings) = split_code_and_strings(r#"let k = "LegacyViewController""#);
    assert!(!code.contains("LegacyViewController"));
    assert!(strings.contains("LegacyViewController"));
}

#[test]
fn handles_escaped_quotes() {
    let (code, _) = split_code_and_strings(r#"let s = "a\"b"; let after = 1"#);
    assert!(code.contains("after"));
}

#[test]
fn tally_counts_whole_identifiers() {
    let mut m = StringHashMap::new();
    tally("foo foobar foo_bar foo", &mut m);
    assert_eq!(m.get("foo"), Some(&2));
    assert_eq!(m.get("foobar"), Some(&1));
}

#[test]
fn survives_non_ascii() {
    let (code, _) = split_code_and_strings("let naziv = \"Niš\"\nlet drugi = 1");
    assert!(code.contains("drugi"));
}

#[test]
fn exact_split_of_comments_and_literals() {
    let (code, strings) = split_code_and_strings("a // c\nb /* x\ny */ c \"s\" d");
    assert_eq!(code, "a \nb \n c  d");
    assert_eq!(strings, "s\n");
}

#[test]
fn block_comment_keeps_its_newlines() {
    let src = "x /*\n\n*/ y";
    let (code, _) = split_code_and_strings(src);
    assert_eq!(code, "x \n\n y");
    assert_eq!(code.matches('\n').count(), src.matches('\n').count());
}

#[test]
fn triple_quoted_literal_keeps_newlines_and_contents() {
    let (code, strings) = split_code_and_strings("let t = \"\"\"\nHidden\n\"\"\"\nlet u = 1");
    assert_eq!(code, "let t = \n\n\nlet u = 1");
    assert_eq!(strings, "\nHidden\n\n");
}

#[test]
fn open_string_literal_keeps_its_newline() {
    let (code, strings) = split_code_and_strings("a \"open\nb");
    assert_eq!(code, "a \nb");
    assert_eq!(strings, "open\n");
}

#[test]
fn backslash_before_newline_keeps_the_newline() {
    let src = "\"\\\n";
    let (code, strings) = split_code_and_strings(src);
    assert_eq!(code, "\n");
    assert_eq!(strings, "\\\n");
}

#[test]
fn unclosed_triple_quote_keeps_its_newlines() {
    let src = "x \"\"\"ab\ncd\n";
    let (code, strings) = split_code_and_strings(src);
    assert_eq!(code, "x \n\n");
    assert_eq!(strings, "ab\ncd\n\n");
    assert_eq!(code.matches('\n').count(), src.matches('\n').count());
}

#[test]
fn tally_of_joined_texts_adds_up() {
    let mut separate = StringHashMap::new();
    tally("foo bar", &mut separate);
    tally("bar baz_1", &mut separate);
    let mut joined = StringHashMap::new();
    tally("foo bar\nbar baz_1", &mut joined);
    for k in ["foo", "bar", "baz_1"] {
        assert_eq!(separate.get(k), joined.get(k), "{k}");
    }
    assert_eq!(joined.get("bar"), Some(&2));
    assert_eq!(joined.len(), 3);
}

#[test]
fn quote_free_source_keeps_line_count() {
    let src = "one // two\nthree /* four\nfive */\nsix";
    let (code, strings) = split_code_and_strings(src);
    assert_eq!(code.matches('\n').count(), 3);
    assert_eq!(strings, "");
}

#[test]
fn tally_adds_to_existing_counts() {
    let mut m = StringHashMap::new();
    tally("alpha beta", &mut m);
    tally("alpha _x9 1abc", &mut m);
    assert_eq!(m.get("alpha"), Some(&2));
    assert_eq!(m.get("beta"), Some(&1));
    assert_eq!(m.get("_x9"), Some(&1));
    assert_eq!(m.get("abc"), Some(&1));
    assert_eq!(m.get("1abc"), None);
}

#[test]
fn utf8_len_of_leading_bytes() {
    assert_eq!(utf8_len(b'a'), 1);
    assert_eq!(utf8_len(0xC5), 2);
    assert_eq!(utf8_len(0xE2), 3);
    assert_eq!(utf8_len(0xF0), 4);
    assert_eq!(utf8_len(0x80), 1);
    assert_eq!(utf8_len(0xFF), 1);
}

#[test]
fn lead_byte_gives_encoded_length() {
    for c in ['a', '\n', 'é', 'Ň', '€', '語', '😀'] {
        let mut buf = [0u8; 4];
        let bytes = c.encode_utf8(&mut buf).as_bytes();
        assert_eq!(utf8_len(bytes[0]), c.len_utf8(), "{c:?}");
        assert_eq!(utf8_len(bytes[0]), bytes.len(), "{c:?}");
    }
}

#[test]
fn tally_adds_up_across_a_non_ascii_separator() {
    let mut separate = StringHashMap::new();
    tally("foo bar", &mut separate);
    tally("bar baz", &mut separate);
    let mut joined = StringHashMap::new();
    tally("foo bar·bar baz", &mut joined);
    for k in ["foo", "bar", "baz"] {
        assert_eq!(separate.get(k), joined.get(k), "{k}");
    }
    assert_eq!(joined.len(), 3);
}
