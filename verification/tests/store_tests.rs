use clipboard_manager::history::ClipboardHistory;
use clipboard_manager::history::FileStamp;

fn store() -> ClipboardHistory {
    ClipboardHistory::new(String::from("/tmp/clipboard-manager-test"))
}

#[test]
fn ordering_newest_first() {
    let mut h = store();
    h.add_text(String::from("a"));
    h.add_text(String::from("b"));
    h.add_text(String::from("c"));
    let all = h.get_all();
    assert_eq!(all.len(), 3);
    assert_eq!(all[0].content, "c");
    assert_eq!(all[1].content, "b");
    assert_eq!(all[2].content, "a");
}

#[test]
fn dedup_moves_to_front() {
    let mut h = store();
    h.add_text(String::from("hello"));
    h.add_text(String::from("world"));
    h.add_text(String::from("hello"));
    let all = h.get_all();
    assert_eq!(all.len(), 2);
    assert_eq!(all[0].content, "hello");
    assert_eq!(all[1].content, "world");
}

#[test]
fn dedup_single_entry() {
    let mut h = store();
    h.add_text(String::from("hello"));
    h.add_text(String::from("hello"));
    let all = h.get_all();
    assert_eq!(all.len(), 1);
    assert_eq!(all[0].content, "hello");
}

#[test]
fn capacity_two_evicts_oldest() {
    let mut h = ClipboardHistory::with_capacity(String::from("/tmp/t"), 2);
    h.add_text(String::from("a"));
    h.add_text(String::from("b"));
    h.add_text(String::from("c"));
    let all = h.get_all();
    assert_eq!(all.len(), 2);
    assert_eq!(all[0].content, "c");
    assert_eq!(all[1].content, "b");
}

#[test]
fn blank_input_is_a_no_op() {
    let mut h = store();
    h.add_text(String::from(""));
    h.add_text(String::from("   "));
    h.add_text(String::from("\t\n  \n"));
    assert_eq!(h.get_all().len(), 0);
    h.add_text(String::from("x"));
    h.add_text(String::from(" "));
    let all = h.get_all();
    assert_eq!(all.len(), 1);
    assert_eq!(all[0].content, "x");
}

#[test]
fn add_text_trims_content() {
    let mut h = store();
    h.add_text(String::from("  padded  "));
    let all = h.get_all();
    assert_eq!(all[0].content, "padded");
}

#[test]
fn unicode_white_space_counts_as_blank() {
    let mut h = store();
    h.add_text(String::from("\u{a0}\u{2003}\u{3000}"));
    assert_eq!(h.get_all().len(), 0);
    h.add_text(String::from("\u{a0}word\u{2003}"));
    assert_eq!(h.get_all()[0].content, "word");
}

#[test]
fn distinct_adds_all_present_once() {
    let mut h = store();
    let words = ["one", "two", "three", "four", "five"];
    for w in words {
        h.add_text(String::from(w));
    }
    let all = h.get_all();
    assert_eq!(all.len(), 5);
    for w in words {
        let count = all.iter().filter(|e| e.content == w).count();
        assert_eq!(count, 1);
    }
}

#[test]
fn delete_entry_removes_at_index() {
    let mut h = store();
    h.add_text(String::from("a"));
    h.add_text(String::from("b"));
    h.add_text(String::from("c"));
    let r = h.delete_entry(0);
    assert!(r.is_none());
    let all = h.get_all();
    assert_eq!(all.len(), 2);
    assert_eq!(all[0].content, "b");
    assert_eq!(all[1].content, "a");
}

#[test]
fn delete_entry_out_of_bounds_is_a_no_op() {
    let mut h = store();
    h.add_text(String::from("a"));
    let r = h.delete_entry(5);
    assert!(r.is_none());
    assert_eq!(h.get_all().len(), 1);
}

#[test]
fn clear_empties_the_store() {
    let mut h = store();
    h.add_text(String::from("a"));
    h.add_text(String::from("b"));
    let names = h.clear();
    assert_eq!(names.len(), 0);
    assert_eq!(h.get_all().len(), 0);
}

#[test]
fn directories_derive_from_data_dir() {
    let h = ClipboardHistory::new(String::from("/data/cm"));
    assert_eq!(h.data_dir(), "/data/cm");
    assert_eq!(h.images_dir(), "/data/cm/images");
}

#[test]
fn needs_reload_tracks_the_baseline() {
    let mut h = store();
    assert!(!h.needs_reload(None));
    let s1 = FileStamp { secs: 10, nanos: 0 };
    assert!(h.needs_reload(Some(s1)));
    h.set_baseline(s1);
    assert!(!h.needs_reload(Some(s1)));
    assert!(!h.needs_reload(Some(FileStamp { secs: 9, nanos: 999 })));
    assert!(h.needs_reload(Some(FileStamp { secs: 10, nanos: 1 })));
    assert!(h.needs_reload(Some(FileStamp { secs: 11, nanos: 0 })));
}
