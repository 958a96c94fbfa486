use deadcode_core::html::{render_html, replace_all, TEMPLATE};

#[test]
fn replace_all_is_left_to_right_without_overlap() {
    assert_eq!(replace_all("aaa", "aa", "b"), "ba");
    assert_eq!(replace_all("x</y</", "</", "<\\/"), "x<\\/y<\\/");
    assert_eq!(replace_all("nothing here", "</", "<\\/"), "nothing here");
    assert_eq!(replace_all("šč__DATA__ž", "__DATA__", "{}"), "šč{}ž");
    assert_eq!(replace_all("", "ab", "c"), "");
}

#[test]
fn page_embeds_escaped_json_and_time() {
    let json = r#"{"root":"</script><b>","findings":[]}"#;
    let page = render_html(json, 1700000000123);
    assert!(page.contains(r#"{"root":"<\/script><b>","findings":[]}"#));
    assert!(!page.contains("__DATA__"));
    assert!(!page.contains("__GENERATED_AT__"));
    assert!(page.contains("1700000000123"));
    assert!(page.starts_with("<!DOCTYPE html>"));
    let expected = TEMPLATE
        .replace("__DATA__", &json.replace("</", r"<\/"))
        .replace("__GENERATED_AT__", "1700000000123");
    assert_eq!(page, expected);
}

#[test]
fn embedded_json_never_closes_the_script() {
    let json = "<</</</<\\/";
    let page = render_html(json, 0);
    let data = json.replace("</", r"<\/");
    assert!(!data.contains("</"));
    assert!(page.contains(&data));
}

#[test]
fn escaping_is_reversed_by_unescaping() {
    let json = r#"{"a":"</b></c>","d":"<x/"}"#;
    let page = render_html(json, 0);
    let escaped = json.replace("</", r"<\/");
    assert!(page.contains(&escaped));
    assert_eq!(replace_all(&escaped, r"<\/", "</"), json);
}
