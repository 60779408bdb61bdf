use clipboard_manager::entry::ImageInfo;
use clipboard_manager::history::ClipboardHistory;
use clipboard_manager::history::FileStamp;
use clipboard_manager::history::ImageAction;
use clipboard_manager::history::ImageError;
use std::io::Cursor;

fn png_bytes(w: u32, h: u32) -> Vec<u8> {
    let img = image::RgbaImage::new(w, h);
    let mut bytes: Vec<u8> = Vec::new();
    img.write_to(&mut Cursor::new(&mut bytes), image::ImageFormat::Png).unwrap();
    bytes
}

fn add_png(h: &mut ClipboardHistory, bytes: &Vec<u8>) -> Vec<String> {
    match h.add_image(bytes) {
        Ok(ImageAction::Write { filename, info, hash }) => h.commit_image(filename, info, hash),
        Ok(ImageAction::Refreshed) => Vec::new(),
        Err(e) => panic!("unexpected image error: {:?}", e),
    }
}

#[test]
fn image_round_trip_dimensions_and_size() {
    let bytes = png_bytes(10, 10);
    let mut h = ClipboardHistory::new(String::from("/tmp/img"));
    match h.add_image(&bytes) {
        Ok(ImageAction::Write { filename, info, hash }) => {
            assert_eq!(
                info,
                ImageInfo { width: 10, height: 10, size_bytes: bytes.len() as u64 },
            );
            assert!(filename.starts_with("img_"));
            assert!(filename.ends_with(".png"));
            let evicted = h.commit_image(filename.clone(), info, hash);
            assert!(evicted.is_empty());
            let all = h.get_all();
            assert_eq!(all.len(), 1);
            assert_eq!(
                all[0].image_info,
                Some(ImageInfo { width: 10, height: 10, size_bytes: bytes.len() as u64 }),
            );
            assert_eq!(all[0].content, filename);
        },
        other => panic!("expected a write plan, got {:?}", other.is_ok()),
    }
}

#[test]
fn duplicate_image_refreshes() {
    let bytes = png_bytes(4, 4);
    let mut h = ClipboardHistory::new(String::from("/tmp/img"));
    add_png(&mut h, &bytes);
    h.add_text(String::from("text in between"));
    match h.add_image(&bytes) {
        Ok(ImageAction::Refreshed) => {},
        _ => panic!("expected the duplicate to refresh"),
    }
    let all = h.get_all();
    assert_eq!(all.len(), 2);
    assert!(all[0].content.starts_with("img_"));
}

#[test]
fn undecodable_bytes_are_a_decode_error() {
    let bytes: Vec<u8> = vec![1, 2, 3, 4, 5];
    let mut h = ClipboardHistory::new(String::from("/tmp/img"));
    match h.add_image(&bytes) {
        Err(ImageError::Decode) => {},
        _ => panic!("expected a decode error"),
    }
    assert_eq!(h.get_all().len(), 0);
}

#[test]
fn eviction_reports_the_image_blob() {
    let mut h = ClipboardHistory::with_capacity(String::from("/tmp/img"), 2);
    let bytes = png_bytes(3, 3);
    add_png(&mut h, &bytes);
    let blob_name = h.get_all()[0].content.clone();
    h.add_text(String::from("newer"));
    let evicted = h.add_text(String::from("newest"));
    assert_eq!(evicted.len(), 1);
    assert_eq!(evicted[0], blob_name);
    assert_eq!(h.get_all().len(), 2);
}

#[test]
fn delete_reports_the_image_blob() {
    let mut h = ClipboardHistory::new(String::from("/tmp/img"));
    let bytes = png_bytes(3, 3);
    add_png(&mut h, &bytes);
    let blob_name = h.get_all()[0].content.clone();
    let r = h.delete_entry(0);
    assert_eq!(r, Some(blob_name));
    assert_eq!(h.get_all().len(), 0);
}

#[test]
fn clear_reports_all_image_blobs() {
    let mut h = ClipboardHistory::new(String::from("/tmp/img"));
    let b1 = png_bytes(2, 2);
    let b2 = png_bytes(5, 5);
    add_png(&mut h, &b1);
    add_png(&mut h, &b2);
    h.add_text(String::from("a text entry"));
    let all = h.get_all();
    assert_eq!(all.len(), 3);
    let names = h.clear();
    assert_eq!(names.len(), 2);
    assert!(names.contains(&all[1].content));
    assert!(names.contains(&all[2].content));
    assert_eq!(h.get_all().len(), 0);
}

#[test]
fn image_entries_survive_a_reload() {
    let bytes = png_bytes(7, 9);
    let mut h1 = ClipboardHistory::new(String::from("/tmp/img"));
    add_png(&mut h1, &bytes);
    let saved = h1.save();
    let mut h2 = ClipboardHistory::new(String::from("/tmp/img"));
    h2.load_from_str(saved.as_str(), FileStamp { secs: 1, nanos: 0 });
    let all = h2.get_all();
    assert_eq!(all.len(), 1);
    assert_eq!(
        all[0].image_info,
        Some(ImageInfo { width: 7, height: 9, size_bytes: bytes.len() as u64 }),
    );
    assert_eq!(all[0].content, h1.get_all()[0].content);
}
