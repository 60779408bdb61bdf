use clipboard_manager::codec::encode_entry;
use clipboard_manager::codec::parse_entry;
use clipboard_manager::entry::ClipboardContentType;
use clipboard_manager::entry::ClipboardEntry;
use clipboard_manager::entry::ImageInfo;

fn text_entry(content: &str, timestamp: i64) -> ClipboardEntry {
    let mut e = ClipboardEntry {
        content_type: ClipboardContentType::Text,
        content: String::from(content),
        timestamp,
        image_info: None,
        content_hash: 0,
    };
    e.compute_hash();
    e
}

fn chars(s: &str) -> Vec<char> {
    s.chars().collect()
}

#[test]
fn text_record_round_trip() {
    let e = text_entry("hello", 1700000000);
    let line = encode_entry(&e);
    let back = parse_entry(&chars(&line)).expect("canonical line must parse");
    assert_eq!(back.content_type, ClipboardContentType::Text);
    assert_eq!(back.content, "hello");
    assert_eq!(back.timestamp, 1700000000);
    assert!(back.image_info.is_none());
    assert_eq!(back.content_hash, e.content_hash);
}

#[test]
fn escaped_characters_round_trip() {
    let tricky = "quote \" backslash \\ newline \n tab \t carriage \r bell \u{7} accents \u{e9}\u{1f600}";
    let e = text_entry(tricky, 42);
    let line = encode_entry(&e);
    assert!(!line.contains('\n'));
    let back = parse_entry(&chars(&line)).expect("escaped line must parse");
    assert_eq!(back.content, tricky);
}

#[test]
fn text_record_shape_is_json() {
    let e = text_entry("ab", 7);
    let line = encode_entry(&e);
    assert_eq!(
        line,
        "{\"content_type\":\"Text\",\"content\":\"ab\",\"timestamp\":7}",
    );
}

#[test]
fn image_record_round_trip() {
    let mut e = ClipboardEntry {
        content_type: ClipboardContentType::Image,
        content: String::from("img_1700000000.png"),
        timestamp: 1700000000,
        image_info: Some(ImageInfo { width: 640, height: 480, size_bytes: 123456 }),
        content_hash: 0,
    };
    e.compute_hash();
    let line = encode_entry(&e);
    assert_eq!(
        line,
        "{\"content_type\":\"Image\",\"content\":\"img_1700000000.png\",\"timestamp\":1700000000,\"image_info\":{\"width\":640,\"height\":480,\"size_bytes\":123456}}",
    );
    let back = parse_entry(&chars(&line)).expect("image line must parse");
    assert_eq!(back.content, "img_1700000000.png");
    assert_eq!(
        back.image_info,
        Some(ImageInfo { width: 640, height: 480, size_bytes: 123456 }),
    );
    assert_eq!(back.content_hash, e.content_hash);
}

#[test]
fn garbage_does_not_parse() {
    assert!(parse_entry(&chars("")).is_none());
    assert!(parse_entry(&chars("not a record")).is_none());
    assert!(parse_entry(&chars("{\"content_type\":\"Text\"")).is_none());
    assert!(parse_entry(&chars("{\"content_type\":\"Audio\",\"content\":\"x\",\"timestamp\":1}"))
        .is_none());
}

#[test]
fn trailing_garbage_does_not_parse() {
    let e = text_entry("x", 1);
    let line = encode_entry(&e);
    let extended = format!("{} ", line);
    assert!(parse_entry(&chars(&extended)).is_none());
}

#[test]
fn non_canonical_numbers_do_not_parse() {
    assert!(parse_entry(&chars("{\"content_type\":\"Text\",\"content\":\"x\",\"timestamp\":007}"))
        .is_none());
    assert!(parse_entry(&chars("{\"content_type\":\"Text\",\"content\":\"x\",\"timestamp\":-1}"))
        .is_none());
}

#[test]
fn control_escapes_parse_canonically() {
    let a = parse_entry(&chars(
        "{\"content_type\":\"Text\",\"content\":\"a\\u0001b\",\"timestamp\":1}",
    ))
    .unwrap();
    assert_eq!(a.content, "a\u{1}b");
    // A character with a short escape form, or one that needs no escape,
    // must not arrive in the \u00XX form.
    assert!(parse_entry(&chars(
        "{\"content_type\":\"Text\",\"content\":\"\\u0041\",\"timestamp\":1}",
    ))
    .is_none());
    assert!(parse_entry(&chars(
        "{\"content_type\":\"Text\",\"content\":\"\\u000a\",\"timestamp\":1}",
    ))
    .is_none());
}

#[test]
fn parsed_hash_is_recomputed() {
    // A text record's hash comes from its content, whatever the file held.
    let a = parse_entry(&chars("{\"content_type\":\"Text\",\"content\":\"abc\",\"timestamp\":1}"))
        .unwrap();
    let b = text_entry("abc", 999);
    assert_eq!(a.content_hash, b.content_hash);
}
