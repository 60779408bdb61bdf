use clipboard_manager::history::ClipboardHistory;
use clipboard_manager::history::FileStamp;

fn stamp(secs: u64) -> FileStamp {
    FileStamp { secs, nanos: 0 }
}

#[test]
fn durability_one_entry() {
    let mut h1 = ClipboardHistory::new(String::from("/tmp/d"));
    h1.add_text(String::from("x"));
    let saved = h1.save();
    let mut h2 = ClipboardHistory::new(String::from("/tmp/d"));
    h2.load_from_str(saved.as_str(), stamp(1));
    let all = h2.get_all();
    assert_eq!(all.len(), 1);
    assert_eq!(all[0].content, "x");
}

#[test]
fn durability_keeps_order_and_fields() {
    let mut h1 = ClipboardHistory::new(String::from("/tmp/d"));
    h1.add_text(String::from("first"));
    h1.add_text(String::from("second"));
    h1.add_text(String::from("third"));
    let saved = h1.save();
    let mut h2 = ClipboardHistory::new(String::from("/tmp/d"));
    h2.load_from_str(saved.as_str(), stamp(1));
    let before = h1.get_all();
    let after = h2.get_all();
    assert_eq!(after.len(), 3);
    for i in 0..3 {
        assert_eq!(after[i].content, before[i].content);
        assert_eq!(after[i].timestamp, before[i].timestamp);
        assert_eq!(after[i].content_hash, before[i].content_hash);
    }
}

#[test]
fn deletion_persists() {
    let mut h1 = ClipboardHistory::new(String::from("/tmp/d"));
    h1.add_text(String::from("a"));
    h1.add_text(String::from("b"));
    h1.add_text(String::from("c"));
    h1.delete_entry(0);
    let saved = h1.save();
    let mut h2 = ClipboardHistory::new(String::from("/tmp/d"));
    h2.load_from_str(saved.as_str(), stamp(2));
    let all = h2.get_all();
    assert_eq!(all.len(), 2);
    assert_eq!(all[0].content, "b");
    assert_eq!(all[1].content, "a");
}

#[test]
fn malformed_lines_are_skipped() {
    let mut h1 = ClipboardHistory::new(String::from("/tmp/d"));
    h1.add_text(String::from("keep"));
    let saved = h1.save();
    let noisy = format!("not json at all\n{}{}\n", saved, "{\"content_type\":\"Text\"");
    let mut h2 = ClipboardHistory::new(String::from("/tmp/d"));
    h2.load_from_str(noisy.as_str(), stamp(1));
    let all = h2.get_all();
    assert_eq!(all.len(), 1);
    assert_eq!(all[0].content, "keep");
}

#[test]
fn load_enforces_capacity() {
    let mut h1 = ClipboardHistory::new(String::from("/tmp/d"));
    h1.add_text(String::from("a"));
    h1.add_text(String::from("b"));
    h1.add_text(String::from("c"));
    let saved = h1.save();
    let mut h2 = ClipboardHistory::with_capacity(String::from("/tmp/d"), 2);
    h2.load_from_str(saved.as_str(), stamp(1));
    let all = h2.get_all();
    assert_eq!(all.len(), 2);
    assert_eq!(all[0].content, "c");
    assert_eq!(all[1].content, "b");
}

#[test]
fn load_drops_duplicate_hashes() {
    let mut h1 = ClipboardHistory::new(String::from("/tmp/d"));
    h1.add_text(String::from("same"));
    let line = h1.save();
    let doubled = format!("{}{}", line, line);
    let mut h2 = ClipboardHistory::new(String::from("/tmp/d"));
    h2.load_from_str(doubled.as_str(), stamp(1));
    assert_eq!(h2.get_all().len(), 1);
}

#[test]
fn check_and_reload_replaces_stale_state() {
    let mut writer = ClipboardHistory::new(String::from("/tmp/d"));
    writer.add_text(String::from("from the other process"));
    let on_disk = writer.save();

    let mut h = ClipboardHistory::new(String::from("/tmp/d"));
    h.add_text(String::from("stale"));
    h.set_baseline(stamp(5));
    h.check_and_reload(Some(stamp(6)), on_disk.as_str());
    let all = h.get_all();
    assert_eq!(all.len(), 1);
    assert_eq!(all[0].content, "from the other process");
}

#[test]
fn check_and_reload_keeps_fresh_state() {
    let mut writer = ClipboardHistory::new(String::from("/tmp/d"));
    writer.add_text(String::from("other"));
    let on_disk = writer.save();

    let mut h = ClipboardHistory::new(String::from("/tmp/d"));
    h.add_text(String::from("mine"));
    h.set_baseline(stamp(5));
    h.check_and_reload(Some(stamp(5)), on_disk.as_str());
    let all = h.get_all();
    assert_eq!(all.len(), 1);
    assert_eq!(all[0].content, "mine");
}

#[test]
fn save_is_one_line_per_entry() {
    let mut h = ClipboardHistory::new(String::from("/tmp/d"));
    h.add_text(String::from("a"));
    h.add_text(String::from("b"));
    let saved = h.save();
    assert_eq!(saved.lines().count(), 2);
    assert!(saved.ends_with('\n'));
}
