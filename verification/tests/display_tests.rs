use clipboard_manager::entry::ClipboardContentType;
use clipboard_manager::entry::ClipboardEntry;
use clipboard_manager::entry::ImageInfo;
use clipboard_manager::helpers::format_size;
use clipboard_manager::helpers::get_trigger_script_path;
use clipboard_manager::text::u64_to_string;

fn text_entry(content: &str, timestamp: i64) -> ClipboardEntry {
    ClipboardEntry {
        content_type: ClipboardContentType::Text,
        content: String::from(content),
        timestamp,
        image_info: None,
        content_hash: 0,
    }
}

fn image_entry(name: &str, timestamp: i64, info: ImageInfo) -> ClipboardEntry {
    ClipboardEntry {
        content_type: ClipboardContentType::Image,
        content: String::from(name),
        timestamp,
        image_info: Some(info),
        content_hash: 0,
    }
}

#[test]
fn format_size_bytes() {
    assert_eq!(format_size(0), "0 B");
    assert_eq!(format_size(512), "512 B");
    assert_eq!(format_size(1023), "1023 B");
}

#[test]
fn format_size_kilobytes() {
    assert_eq!(format_size(1024), "1.0 KB");
    assert_eq!(format_size(1536), "1.5 KB");
    assert_eq!(format_size(2048), "2.0 KB");
    assert_eq!(format_size(1048575), "1024.0 KB");
}

#[test]
fn format_size_megabytes() {
    assert_eq!(format_size(1048576), "1.0 MB");
    assert_eq!(format_size(3 * 1048576), "3.0 MB");
    assert_eq!(format_size(1048576 + 524288), "1.5 MB");
}

#[test]
fn formatted_time_is_clock_of_day() {
    assert_eq!(text_entry("x", 0).formatted_time(), "00:00:00");
    assert_eq!(text_entry("x", 3661).formatted_time(), "01:01:01");
    assert_eq!(text_entry("x", 86399).formatted_time(), "23:59:59");
    assert_eq!(text_entry("x", 86400).formatted_time(), "00:00:00");
}

#[test]
fn display_content_flattens_and_trims() {
    let e = text_entry("  hello\nworld\ttabbed  ", 0);
    assert_eq!(e.display_content(), "hello world tabbed");
}

#[test]
fn display_content_shortens_long_text() {
    let long = "a".repeat(80);
    let e = text_entry(&long, 0);
    let shown = e.display_content();
    assert_eq!(shown, format!("{}...", "a".repeat(75)));
}

#[test]
fn display_content_keeps_short_text() {
    let e = text_entry("short", 0);
    assert_eq!(e.display_content(), "short");
}

#[test]
fn display_content_summarizes_images() {
    let e = image_entry(
        "img_1.png",
        0,
        ImageInfo { width: 10, height: 10, size_bytes: 1024 },
    );
    assert_eq!(e.display_content(), "Image 10\u{d7}10 (1.0 KB)");
}

#[test]
fn icon_marks_the_kind() {
    assert_eq!(text_entry("x", 0).icon(), "\u{1f4dd}");
    let e = image_entry("i.png", 0, ImageInfo { width: 1, height: 1, size_bytes: 1 });
    assert_eq!(e.icon(), "\u{1f5bc}\u{fe0f}");
}

#[test]
fn trigger_script_path_joins_the_data_dir() {
    assert_eq!(get_trigger_script_path("/data/cm"), "/data/cm/trigger.sh");
}

#[test]
fn decimal_printing() {
    assert_eq!(u64_to_string(0), "0");
    assert_eq!(u64_to_string(7), "7");
    assert_eq!(u64_to_string(1234567890), "1234567890");
    assert_eq!(u64_to_string(u64::MAX), "18446744073709551615");
}
