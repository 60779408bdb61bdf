//! The history store: the deduplicating, capacity-bounded, newest-first
//! sequence of clipboard entries, with its persistence codec and its
//! reconciliation policy against external edits of the backing file.
//!
//! The store itself performs no I/O. It computes every decision and every
//! byte that touches the disk: a caller stats, reads, writes and deletes
//! files, and hands the plain values back in.

use crate::codec::encode_entry;
use crate::codec::parse_entry;
use crate::codec::spec_encode_entry;
use crate::codec::spec_parse_entry;
use crate::codec::spec_split;
use crate::codec::split_segments;
use crate::entry::AbsEntry;
use crate::entry::ClipboardContentType;
use crate::entry::ClipboardEntry;
use crate::entry::ImageInfo;
use crate::entry::recomputed_hash;
use crate::entry::wf_abs;
use crate::hashing::bytes_hash;
use crate::hashing::hash_bytes;
use crate::hashing::text_hash;
use crate::text::spec_trim;
use crate::text::str_to_chars;
use crate::text::trim_chars;
use vstd::prelude::*;
use vstd::string::StrSliceExecFns;
use vstd::string::StringExecFns;

verus! {

/// A file modification time, as whole seconds and nanoseconds.
#[derive(Clone, Copy, PartialEq, Eq, Structural, Debug)]
pub struct FileStamp {
    pub secs: u64,
    pub nanos: u32,
}

/// Whether `a` is strictly later than `b`.
pub open spec fn newer_than(a: FileStamp, b: FileStamp) -> bool {
    a.secs > b.secs || (a.secs == b.secs && a.nanos > b.nanos)
}

/// The error a caller gets from an image insertion.
#[derive(Clone, Copy, PartialEq, Eq, Structural, Debug)]
pub enum ImageError {
    /// The bytes could not be decoded as an image.
    Decode,
    /// The blob file could not be written.
    Write,
}

/// What an image insertion asks of the caller.
pub enum ImageAction {
    /// The image was already present; its entry moved to the front.
    Refreshed,
    /// A new entry is ready: write the raw bytes to `filename` in the image
    /// directory, and on success commit the entry with these values.
    Write { filename: String, info: ImageInfo, hash: u64 },
}

/// Whether some entry in the sequence carries this hash.
pub open spec fn has_hash(s: Seq<AbsEntry>, h: u64) -> bool {
    exists|i: int| 0 <= i < s.len() && s[i].content_hash == h
}

/// The index of the entry carrying this hash.
pub open spec fn idx_of_hash(s: Seq<AbsEntry>, h: u64) -> int {
    choose|i: int| 0 <= i < s.len() && s[i].content_hash == h
}

/// The sequence with the entry at `i` moved to the front.
pub open spec fn move_front(s: Seq<AbsEntry>, i: int) -> Seq<AbsEntry> {
    seq![s[i]] + s.take(i) + s.skip(i + 1)
}

/// The blob filenames of the image entries of a sequence, in order.
pub open spec fn image_names(s: Seq<AbsEntry>) -> Seq<Seq<char>>
    decreases s.len(),
{
    if s.len() == 0 {
        Seq::empty()
    } else if s[0].content_type is Image {
        seq![s[0].content] + image_names(s.drop_first())
    } else {
        image_names(s.drop_first())
    }
}

/// Collecting blob filenames distributes over concatenation.
pub proof fn lemma_image_names_concat(a: Seq<AbsEntry>, b: Seq<AbsEntry>)
    ensures
        image_names(a + b) == image_names(a) + image_names(b),
    decreases a.len(),
{
    if a.len() == 0 {
        assert(a + b =~= b);
        assert(image_names(a) + image_names(b) =~~= image_names(b));
    } else {
        assert((a + b).drop_first() =~= a.drop_first() + b);
        assert((a + b)[0] == a[0]);
        lemma_image_names_concat(a.drop_first(), b);
        if a[0].content_type is Image {
            assert(seq![a[0].content] + (image_names(a.drop_first()) + image_names(b))
                =~~= (seq![a[0].content] + image_names(a.drop_first())) + image_names(b));
        }
    }
}

/// What falls off the tail when a sequence is cut to `cap` entries.
pub open spec fn dropped(s: Seq<AbsEntry>, cap: int) -> Seq<AbsEntry> {
    if s.len() > cap {
        s.skip(cap)
    } else {
        Seq::empty()
    }
}

/// The sequence after inserting `e` at the front of `s` and cutting to
/// `cap` entries.
pub open spec fn inserted(s: Seq<AbsEntry>, e: AbsEntry, cap: int) -> Seq<AbsEntry> {
    let cur = seq![e] + s;
    if cur.len() <= cap {
        cur
    } else {
        cur.take(cap)
    }
}

/// The source index in the earlier sequence for position `i`, after the
/// entry at `idx` has moved to the front.
pub open spec fn perm_src(len: int, idx: int, i: int) -> int {
    if i == 0 {
        idx
    } else if i <= idx {
        i - 1
    } else {
        i
    }
}

/// The full backing-file text for a sequence: each entry's canonical line,
/// newest first, each ended by a newline.
pub open spec fn spec_save(s: Seq<AbsEntry>) -> Seq<char>
    decreases s.len(),
{
    if s.len() == 0 {
        Seq::empty()
    } else {
        spec_encode_entry(s[0]) + seq!['\n'] + spec_save(s.drop_first())
    }
}

/// Saving distributes over concatenation.
pub proof fn lemma_spec_save_concat(a: Seq<AbsEntry>, b: Seq<AbsEntry>)
    ensures
        spec_save(a + b) == spec_save(a) + spec_save(b),
    decreases a.len(),
{
    if a.len() == 0 {
        assert(a + b =~= b);
        assert(spec_save(a) + spec_save(b) =~= spec_save(b));
    } else {
        assert((a + b).drop_first() =~= a.drop_first() + b);
        assert((a + b)[0] == a[0]);
        lemma_spec_save_concat(a.drop_first(), b);
        assert(spec_encode_entry(a[0]) + seq!['\n'] + (spec_save(a.drop_first()) + spec_save(b))
            =~= (spec_encode_entry(a[0]) + seq!['\n'] + spec_save(a.drop_first())) + spec_save(b));
    }
}

/// What loading builds from the file's lines, given what was already built:
/// each line that parses contributes its entry, unless its hash is already
/// present or the capacity is reached.
pub open spec fn load_acc(lines: Seq<Seq<char>>, cap: int, acc: Seq<AbsEntry>) -> Seq<AbsEntry>
    decreases lines.len(),
{
    if lines.len() == 0 {
        acc
    } else {
        let acc2 = match spec_parse_entry(lines[0]) {
            Some(e) => if acc.len() < cap && !has_hash(acc, e.content_hash) {
                acc.push(e)
            } else {
                acc
            },
            None => acc,
        };
        load_acc(lines.drop_first(), cap, acc2)
    }
}

/// The sequence loading builds from the file's lines.
pub open spec fn spec_load(lines: Seq<Seq<char>>, cap: int) -> Seq<AbsEntry> {
    load_acc(lines, cap, Seq::empty())
}

/// Splitting off the last element of a subrange splits its image names.
pub proof fn lemma_image_names_concat_sub(cur: Seq<AbsEntry>, c0: int, g: int)
    requires
        0 <= c0 <= g < cur.len(),
    ensures
        image_names(cur.subrange(c0, g + 1)) == image_names(cur.subrange(c0, g)) + image_names(
            seq![cur[g]],
        ),
{
    assert(cur.subrange(c0, g + 1) =~= cur.subrange(c0, g) + seq![cur[g]]);
    lemma_image_names_concat(cur.subrange(c0, g), seq![cur[g]]);
}

/// The single authority for what is in clipboard history: bounded,
/// deduplicated by content hash, newest first.
pub struct ClipboardHistory {
    entries: Vec<ClipboardEntry>,
    data_dir: String,
    images_dir: String,
    max_history: usize,
    baseline: Option<FileStamp>,
}

impl View for ClipboardHistory {
    type V = Seq<AbsEntry>;

    closed spec fn view(&self) -> Seq<AbsEntry> {
        self.entries@.map_values(|e: ClipboardEntry| e@)
    }
}

impl ClipboardHistory {
    /// The data directory this store was built over.
    pub closed spec fn spec_data_dir(&self) -> Seq<char> {
        self.data_dir@
    }

    /// The directory holding image blobs.
    pub closed spec fn spec_images_dir(&self) -> Seq<char> {
        self.images_dir@
    }

    /// The capacity bound.
    pub closed spec fn capacity(&self) -> int {
        self.max_history as int
    }

    /// The modification time of the last write this store produced or took
    /// over, if any.
    pub closed spec fn baseline(&self) -> Option<FileStamp> {
        self.baseline
    }

    /// Everything that does not change when the entry sequence changes.
    pub open spec fn same_frame(&self, other: &Self) -> bool {
        &&& self.spec_data_dir() == other.spec_data_dir()
        &&& self.spec_images_dir() == other.spec_images_dir()
        &&& self.capacity() == other.capacity()
    }

    /// Well-formedness: a positive capacity that bounds the length, every
    /// entry well-formed, and no two entries sharing a content hash.
    pub open spec fn wf(&self) -> bool {
        &&& 1 <= self.capacity()
        &&& self@.len() <= self.capacity()
        &&& forall|i: int| 0 <= i < self@.len() ==> wf_abs(#[trigger] self@[i])
        &&& forall|i: int, j: int|
            0 <= i < self@.len() && 0 <= j < self@.len() && i != j ==> #[trigger] self@[i].content_hash
                != #[trigger] self@[j].content_hash
    }

    /// Builds an empty store over a data directory, with the default
    /// capacity. Loading from the backing file is a separate step.
    pub fn new(data_dir: String) -> (r: Self)
        ensures
            r.wf(),
            r@ == Seq::<AbsEntry>::empty(),
            r.capacity() == crate::MAX_HISTORY as int,
            r.spec_data_dir() == data_dir@,
            r.spec_images_dir() == data_dir@ + "/images"@,
            r.baseline() is None,
    {
        Self::with_capacity(data_dir, crate::MAX_HISTORY)
    }

    /// Builds an empty store with an explicit capacity.
    pub fn with_capacity(data_dir: String, cap: usize) -> (r: Self)
        requires
            cap >= 1,
        ensures
            r.wf(),
            r@ == Seq::<AbsEntry>::empty(),
            r.capacity() == cap as int,
            r.spec_data_dir() == data_dir@,
            r.spec_images_dir() == data_dir@ + "/images"@,
            r.baseline() is None,
    {
        let mut images_dir = data_dir.clone();
        images_dir.append("/images");
        let r = ClipboardHistory {
            entries: Vec::new(),
            data_dir,
            images_dir,
            max_history: cap,
            baseline: None,
        };
        proof {
            assert(r@ =~= Seq::<AbsEntry>::empty());
        }
        r
    }

    /// The data directory path.
    pub fn data_dir(&self) -> (r: &String)
        ensures
            r@ == self.spec_data_dir(),
    {
        &self.data_dir
    }

    /// The image blob directory path.
    pub fn images_dir(&self) -> (r: &String)
        ensures
            r@ == self.spec_images_dir(),
    {
        &self.images_dir
    }

    /// The index of the entry carrying `h`, if any.
    fn find_hash(&self, h: u64) -> (r: Option<usize>)
        ensures
            match r {
                Some(i) => i < self@.len() && self@[i as int].content_hash == h,
                None => !has_hash(self@, h),
            },
    {
        let mut i: usize = 0;
        while i < self.entries.len()
            invariant
                i <= self@.len(),
                self@.len() == self.entries@.len(),
                forall|j: int| 0 <= j < i ==> #[trigger] self@[j].content_hash != h,
            decreases self@.len() - i,
        {
            if self.entries[i].content_hash == h {
                proof {
                    assert(self@[i as int].content_hash == h);
                }
                return Some(i);
            }
            i = i + 1;
        }
        None
    }

    /// An immutable snapshot of the sequence, newest first. Reading does
    /// not reconcile against the backing file; reconciliation happens on
    /// the mutation path, where staleness would break deduplication.
    pub fn get_all(&self) -> (r: Vec<ClipboardEntry>)
        ensures
            r@.map_values(|e: ClipboardEntry| e@) == self@,
            r@.len() == self@.len(),
    {
        let ghost f = |e: ClipboardEntry| e@;
        let mut r: Vec<ClipboardEntry> = Vec::new();
        let mut i: usize = 0;
        while i < self.entries.len()
            invariant
                i <= self.entries@.len(),
                self@ == self.entries@.map_values(|e: ClipboardEntry| e@),
                r@.len() == i,
                forall|j: int| 0 <= j < i ==> (#[trigger] r@[j])@ == self@[j],
            decreases self.entries@.len() - i,
        {
            let e = self.entries[i].clone();
            proof {
                assert(e@ == self@[i as int]);
            }
            r.push(e);
            i = i + 1;
        }
        proof {
            assert forall|j: int| 0 <= j < r@.len() implies r@.map_values(f)[j] == self@[j] by {
                assert(r@.map_values(f)[j] == f(r@[j]));
            }
            assert(r@.map_values(f) =~~= self@);
        }
        r
    }

    /// Whether the in-memory state is stale against the backing file: the
    /// file exists and its modification time is past the recorded baseline.
    pub fn needs_reload(&self, current: Option<FileStamp>) -> (r: bool)
        ensures
            r == match current {
                Some(c) => match self.baseline() {
                    Some(b) => newer_than(c, b),
                    None => true,
                },
                None => false,
            },
    {
        match current {
            Some(c) => match self.baseline {
                Some(b) => c.secs > b.secs || (c.secs == b.secs && c.nanos > b.nanos),
                None => true,
            },
            None => false,
        }
    }

    /// Inserts a fresh entry at the front and evicts from the tail while the
    /// capacity is exceeded, returning the blob filenames of evicted image
    /// entries.
    fn insert_front_and_evict(&mut self, e: ClipboardEntry) -> (evicted: Vec<String>)
        requires
            old(self).wf(),
            wf_abs(e@),
            !has_hash(old(self)@, e@.content_hash),
        ensures
            final(self).wf(),
            final(self).same_frame(old(self)),
            final(self).baseline() == old(self).baseline(),
            final(self)@ == inserted(old(self)@, e@, old(self).capacity()),
            evicted@.map_values(|s: String| s@) == image_names(
                dropped(seq![e@] + old(self)@, old(self).capacity()),
            ),
    {
        let ghost f = |en: ClipboardEntry| en@;
        let ghost fs = |s: String| s@;
        let ghost old_view = self@;
        let ghost cur = seq![e@] + old(self)@;
        let ghost cap = old(self).capacity();
        self.entries.insert(0, e);
        proof {
            assert forall|j: int| 0 <= j < self@.len() implies self@[j] == cur[j] by {
                assert(self@[j] == self.entries@[j]@);
            }
            assert(self@ =~~= cur);
        }
        let mut evicted: Vec<String> = Vec::new();
        let ghost c0: int = if cur.len() <= cap {
            cur.len() as int
        } else {
            cap
        };
        let ghost g: int = c0;
        let ghost names: Seq<Seq<char>> = Seq::empty();
        proof {
            assert(self@ =~~= cur.take(c0) + cur.skip(g));
            assert(cur.subrange(c0, g) =~= Seq::<AbsEntry>::empty());
            assert(names =~~= image_names(cur.subrange(c0, g)));
        }
        while self.entries.len() > self.max_history
            invariant
                self.max_history as int == cap,
                1 <= cap,
                c0 == if cur.len() <= cap {
                    cur.len() as int
                } else {
                    cap
                },
                c0 <= g <= cur.len(),
                self@ == cur.take(c0) + cur.skip(g),
                self@.len() == self.entries@.len(),
                self@.len() == c0 + (cur.len() - g),
                names == image_names(cur.subrange(c0, g)),
                evicted@.len() == names.len(),
                forall|j: int| 0 <= j < names.len() ==> (#[trigger] evicted@[j])@ == names[j],
                self.same_frame(old(self)),
                self.baseline == old(self).baseline,
                self@ == self.entries@.map_values(|en: ClipboardEntry| en@),
            decreases cur.len() - g,
        {
            proof {
                assert(g < cur.len());
                assert(c0 == cap);
            }
            let ghost pre = self.entries@;
            let ghost pre_view = self@;
            let dead = self.entries.remove(self.max_history);
            proof {
                assert(pre_view[cap] == pre[cap]@);
                assert(dead@ == (cur.take(c0) + cur.skip(g))[cap]);
                assert(dead@ == cur[g]);
            }
            match dead.content_type {
                ClipboardContentType::Image => {
                    proof {
                        assert(dead.content@ == cur[g].content);
                    }
                    evicted.push(dead.content);
                    proof {
                        names = names.push(cur[g].content);
                    }
                },
                ClipboardContentType::Text => {
                },
            }
            proof {
                assert(cur.subrange(c0, g + 1) =~= cur.subrange(c0, g) + seq![cur[g]]);
                lemma_image_names_concat_sub(cur, c0, g);
                assert(seq![cur[g]].drop_first() =~= Seq::<AbsEntry>::empty());
                assert(seq![cur[g]][0] == cur[g]);
                assert(image_names(Seq::<AbsEntry>::empty()) =~~= Seq::<Seq<char>>::empty());
                if cur[g].content_type is Image {
                    assert(image_names(seq![cur[g]]) =~~= seq![cur[g].content]);
                } else {
                    assert(image_names(seq![cur[g]]) =~~= Seq::<Seq<char>>::empty());
                }
                assert(names =~~= image_names(cur.subrange(c0, g + 1)));
                assert(self.entries@ == pre.remove(cap));
                assert forall|j: int| 0 <= j < self@.len() implies self@[j] == (cur.take(c0)
                    + cur.skip(g + 1))[j] by {
                    assert(self@[j] == self.entries@[j]@);
                    if j < cap {
                        assert(self.entries@[j] == pre[j]);
                        assert(pre[j]@ == pre_view[j]);
                        assert(pre_view[j] == cur[j]);
                        assert((cur.take(c0) + cur.skip(g + 1))[j] == cur[j]);
                    } else {
                        assert(self.entries@[j] == pre[j + 1]);
                        assert(pre[j + 1]@ == pre_view[j + 1]);
                        assert(pre_view[j + 1] == cur.skip(g)[j + 1 - c0]);
                        assert(pre_view[j + 1] == cur[g + (j + 1 - c0)]);
                        assert((cur.take(c0) + cur.skip(g + 1))[j] == cur[g + 1 + (j - c0)]);
                    }
                }
                assert(self@ =~~= cur.take(c0) + cur.skip(g + 1));
                g = g + 1;
            }
        }
        proof {
            assert(g == cur.len());
            assert(cur.skip(g) =~= Seq::<AbsEntry>::empty());
            assert(self@ =~~= cur.take(c0));
            assert forall|j: int| 0 <= j < evicted@.len() implies evicted@.map_values(fs)[j]
                == names[j] by {
                assert(evicted@.map_values(fs)[j] == fs(evicted@[j]));
            }
            assert(evicted@.map_values(fs) =~~= names);
            assert(self@ =~~= inserted(old_view, cur[0], cap));
            if cur.len() > cap {
                assert(cur.subrange(c0, g) =~= cur.skip(cap));
            } else {
                assert(cur.subrange(c0, g) =~= Seq::<AbsEntry>::empty());
            }
            // Well-formedness carries from the combined sequence to its prefix.
            assert forall|i: int| 0 <= i < self@.len() implies wf_abs(#[trigger] self@[i]) by {
                assert(self@[i] == cur[i]);
                if i == 0 {
                } else {
                    assert(cur[i] == old_view[i - 1]);
                }
            }
            assert forall|i: int, j: int|
                0 <= i < self@.len() && 0 <= j < self@.len() && i != j implies #[trigger] self@[i].content_hash
                != #[trigger] self@[j].content_hash by {
                assert(self@[i] == cur[i]);
                assert(self@[j] == cur[j]);
                if i != 0 && j != 0 {
                    assert(cur[i] == old_view[i - 1]);
                    assert(cur[j] == old_view[j - 1]);
                } else if i == 0 {
                    assert(cur[j] == old_view[j - 1]);
                    assert(!(old_view[j - 1].content_hash == cur[0].content_hash)) by {
                        if old_view[j - 1].content_hash == cur[0].content_hash {
                            assert(has_hash(old_view, cur[0].content_hash));
                        }
                    }
                } else {
                    assert(cur[i] == old_view[i - 1]);
                    if old_view[i - 1].content_hash == cur[0].content_hash {
                        assert(has_hash(old_view, cur[0].content_hash));
                    }
                }
            }
        }
        evicted
    }

    /// Records a text capture. Blank input is a silent no-op; a duplicate
    /// moves its entry to the front; otherwise the trimmed text is inserted
    /// at the front and the tail is evicted past capacity. Returns the blob
    /// filenames whose files the caller must delete.
    pub fn add_text(&mut self, content: String) -> (evicted: Vec<String>)
        requires
            old(self).wf(),
        ensures
            final(self).wf(),
            final(self).same_frame(old(self)),
            final(self).baseline() == old(self).baseline(),
            ({
                let t = spec_trim(content@);
                let h = text_hash(t);
                if t.len() == 0 {
                    final(self)@ == old(self)@ && evicted@ == Seq::<String>::empty()
                } else if has_hash(old(self)@, h) {
                    final(self)@ == move_front(old(self)@, idx_of_hash(old(self)@, h)) && evicted@
                        == Seq::<String>::empty()
                } else {
                    &&& final(self)@ == inserted(old(self)@, final(self)@[0], old(self).capacity())
                    &&& final(self)@[0].content_type is Text
                    &&& final(self)@[0].content == t
                    &&& final(self)@[0].image_info is None
                    &&& final(self)@[0].content_hash == h
                    &&& 0 <= final(self)@[0].timestamp
                    &&& evicted@.map_values(|s: String| s@) == image_names(
                        dropped(seq![final(self)@[0]] + old(self)@, old(self).capacity()),
                    )
                }
            }),
    {
        let cs = str_to_chars(content.as_str());
        let trimmed = trim_chars(&cs);
        if trimmed.as_str().unicode_len() == 0 {
            return Vec::new();
        }
        let h = crate::hashing::hash_str(trimmed.as_str());
        match self.find_hash(h) {
            Some(idx) => {
                self.relocate_to_front(idx);
                proof {
                    let i0 = idx_of_hash(old(self)@, h);
                    assert(0 <= i0 < old(self)@.len() && old(self)@[i0].content_hash == h);
                    assert(i0 == idx as int);
                }
                Vec::new()
            },
            None => {
                let e = ClipboardEntry::new_text(trimmed);
                self.insert_front_and_evict(e)
            },
        }
    }

    /// Moves the entry at a valid index to the front.
    fn relocate_to_front(&mut self, idx: usize)
        requires
            old(self).wf(),
            idx < old(self)@.len(),
        ensures
            final(self).wf(),
            final(self).same_frame(old(self)),
            final(self).baseline() == old(self).baseline(),
            final(self)@ == move_front(old(self)@, idx as int),
    {
        let ghost old_view = self@;
        let ent = self.entries.remove(idx);
        self.entries.insert(0, ent);
        proof {
            let target = move_front(old_view, idx as int);
            assert forall|j: int| 0 <= j < self@.len() implies self@[j] == target[j] by {
                assert(self@[j] == self.entries@[j]@);
            }
            assert(self@ =~~= target);
            // A permutation keeps well-formedness and hash uniqueness.
            assert forall|i: int| 0 <= i < self@.len() implies wf_abs(#[trigger] self@[i]) by {
                assert(self@[i] == old_view[perm_src(old_view.len() as int, idx as int, i)]);
            }
            assert forall|i: int, j: int|
                0 <= i < self@.len() && 0 <= j < self@.len() && i != j implies #[trigger] self@[i].content_hash
                != #[trigger] self@[j].content_hash by {
                assert(self@[i] == old_view[perm_src(old_view.len() as int, idx as int, i)]);
                assert(self@[j] == old_view[perm_src(old_view.len() as int, idx as int, j)]);
            }
        }
    }

    /// Removes the entry at `index`; out of bounds is a no-op. Returns the
    /// blob filename to delete if the removed entry was an image.
    pub fn delete_entry(&mut self, index: usize) -> (r: Option<String>)
        requires
            old(self).wf(),
        ensures
            final(self).wf(),
            final(self).same_frame(old(self)),
            final(self).baseline() == old(self).baseline(),
            index >= old(self)@.len() ==> final(self)@ == old(self)@ && r is None,
            index < old(self)@.len() ==> {
                &&& final(self)@ == old(self)@.remove(index as int)
                &&& (r is Some <==> old(self)@[index as int].content_type is Image)
                &&& (r matches Some(name) ==> name@ == old(self)@[index as int].content)
            },
    {
        if index >= self.entries.len() {
            return None;
        }
        let ghost old_view = self@;
        let dead = self.entries.remove(index);
        proof {
            assert forall|j: int| 0 <= j < self@.len() implies self@[j] == old_view.remove(
                index as int,
            )[j] by {
                assert(self@[j] == self.entries@[j]@);
            }
            assert(self@ =~~= old_view.remove(index as int));
            assert forall|i: int| 0 <= i < self@.len() implies wf_abs(#[trigger] self@[i]) by {
                if i < index {
                    assert(self@[i] == old_view[i]);
                } else {
                    assert(self@[i] == old_view[i + 1]);
                }
            }
            assert forall|i: int, j: int|
                0 <= i < self@.len() && 0 <= j < self@.len() && i != j implies #[trigger] self@[i].content_hash
                != #[trigger] self@[j].content_hash by {
                assert(self@[i] == old_view[if i < index { i } else { i + 1 }]);
                assert(self@[j] == old_view[if j < index { j } else { j + 1 }]);
            }
            assert(dead@ == old_view[index as int]);
        }
        match dead.content_type {
            ClipboardContentType::Image => Some(dead.content),
            ClipboardContentType::Text => None,
        }
    }

    /// Empties the store, returning every image entry's blob filename so the
    /// caller can delete the files.
    pub fn clear(&mut self) -> (r: Vec<String>)
        requires
            old(self).wf(),
        ensures
            final(self).wf(),
            final(self).same_frame(old(self)),
            final(self).baseline() == old(self).baseline(),
            final(self)@ == Seq::<AbsEntry>::empty(),
            r@.map_values(|s: String| s@) == image_names(old(self)@),
    {
        let ghost fs = |s: String| s@;
        let ghost old_view = self@;
        let mut r: Vec<String> = Vec::new();
        let ghost names: Seq<Seq<char>> = Seq::empty();
        let mut i: usize = 0;
        proof {
            assert(old_view.take(0) =~= Seq::<AbsEntry>::empty());
        }
        while i < self.entries.len()
            invariant
                i <= self.entries@.len(),
                self@ == old_view,
                self@ == self.entries@.map_values(|en: ClipboardEntry| en@),
                names == image_names(old_view.take(i as int)),
                r@.len() == names.len(),
                forall|j: int| 0 <= j < names.len() ==> (#[trigger] r@[j])@ == names[j],
            decreases self.entries@.len() - i,
        {
            proof {
                assert(old_view.take(i + 1 as int) =~= old_view.take(i as int) + seq![old_view[
                    i as int
                ]]);
                lemma_image_names_concat(old_view.take(i as int), seq![old_view[i as int]]);
                assert(seq![old_view[i as int]].drop_first() =~= Seq::<AbsEntry>::empty());
                assert(seq![old_view[i as int]][0] == old_view[i as int]);
                assert(image_names(Seq::<AbsEntry>::empty()) =~~= Seq::<Seq<char>>::empty());
            }
            match self.entries[i].content_type {
                ClipboardContentType::Image => {
                    let name = self.entries[i].content.clone();
                    proof {
                        assert(self.entries@[i as int]@ == old_view[i as int]);
                        assert(name@ == old_view[i as int].content);
                        assert(image_names(seq![old_view[i as int]]) =~~= seq![old_view[
                            i as int
                        ].content]);
                    }
                    r.push(name);
                    proof {
                        names = names.push(old_view[i as int].content);
                        assert(names =~~= image_names(old_view.take(i + 1 as int)));
                    }
                },
                ClipboardContentType::Text => {
                    proof {
                        assert(self.entries@[i as int]@ == old_view[i as int]);
                        assert(image_names(seq![old_view[i as int]]) =~~= Seq::<Seq<char>>::empty());
                        assert(names =~~= image_names(old_view.take(i + 1 as int)));
                    }
                },
            }
            i = i + 1;
        }
        proof {
            assert(old_view.take(old_view.len() as int) =~= old_view);
        }
        self.entries.clear();
        proof {
            assert(self@ =~~= Seq::<AbsEntry>::empty());
            assert forall|j: int| 0 <= j < r@.len() implies r@.map_values(fs)[j] == names[j] by {
                assert(r@.map_values(fs)[j] == fs(r@[j]));
            }
            assert(r@.map_values(fs) =~~= names);
        }
        r
    }

    /// The full text of the backing file for the current sequence: one
    /// canonical record line per entry, newest first, each ended by a
    /// newline. The caller writes it to disk, atomically, and then records
    /// the file's new modification time with set_baseline.
    pub fn save(&self) -> (r: String)
        requires
            self.wf(),
        ensures
            r@ == spec_save(self@),
    {
        let mut out = String::new();
        let mut i: usize = 0;
        while i < self.entries.len()
            invariant
                self.wf(),
                i <= self.entries@.len(),
                self@ == self.entries@.map_values(|en: ClipboardEntry| en@),
                out@ == spec_save(self@.take(i as int)),
            decreases self.entries@.len() - i,
        {
            proof {
                assert(self.entries@[i as int]@ == self@[i as int]);
                assert(wf_abs(self@[i as int]));
            }
            let line = encode_entry(&self.entries[i]);
            out.append(line.as_str());
            out.push('\n');
            proof {
                assert(self@.take(i + 1 as int) =~= self@.take(i as int) + seq![self@[i as int]]);
                lemma_spec_save_concat(self@.take(i as int), seq![self@[i as int]]);
                assert(seq![self@[i as int]].drop_first() =~= Seq::<AbsEntry>::empty());
                assert(seq![self@[i as int]][0] == self@[i as int]);
                assert(spec_save(seq![self@[i as int]]) =~= spec_encode_entry(self@[i as int])
                    + seq!['\n'] + spec_save(Seq::<AbsEntry>::empty()));
                assert(out@ =~= spec_save(self@.take(i + 1 as int)));
            }
            i = i + 1;
        }
        proof {
            assert(self@.take(self@.len() as int) =~= self@);
        }
        out
    }

    /// Replaces the in-memory state with what the given backing-file text
    /// holds: records are parsed line by line, malformed lines are skipped,
    /// hashes are recomputed, duplicates past the first are dropped, and the
    /// capacity bound is enforced. The given stamp becomes the new baseline.
    pub fn load_from_str(&mut self, contents: &str, stamp: FileStamp)
        requires
            old(self).wf(),
        ensures
            final(self).wf(),
            final(self).same_frame(old(self)),
            final(self).baseline() == Some(stamp),
            final(self)@ == spec_load(spec_split(contents@), old(self).capacity()),
    {
        let ghost cap = old(self).capacity();
        let ghost fv = |v: Vec<char>| v@;
        let cs = str_to_chars(contents);
        let segs = split_segments(&cs);
        let ghost all = spec_split(contents@);
        proof {
            assert(segs@.map_values(fv) == all);
            assert(all.skip(0) =~= all);
        }
        self.entries = Vec::new();
        proof {
            assert(self@ =~~= Seq::<AbsEntry>::empty());
        }
        let mut i: usize = 0;
        while i < segs.len()
            invariant
                i <= segs@.len(),
                segs@.map_values(|v: Vec<char>| v@) == all,
                self.max_history as int == cap,
                1 <= cap,
                spec_load(all, cap) == load_acc(all.skip(i as int), cap, self@),
                self@.len() <= cap,
                forall|k: int| 0 <= k < self@.len() ==> wf_abs(#[trigger] self@[k]),
                forall|k: int, j: int|
                    0 <= k < self@.len() && 0 <= j < self@.len() && k != j
                        ==> #[trigger] self@[k].content_hash != #[trigger] self@[j].content_hash,
                self.same_frame(old(self)),
                self@ == self.entries@.map_values(|en: ClipboardEntry| en@),
            decreases segs@.len() - i,
        {
            let ghost before = self@;
            proof {
                assert(segs@.map_values(fv)[i as int] == fv(segs@[i as int]));
                assert(all[i as int] == segs@[i as int]@);
                assert(all.skip(i as int)[0] == all[i as int]);
                assert(all.skip(i as int).drop_first() =~= all.skip(i + 1 as int));
            }
            match parse_entry(&segs[i]) {
                Some(e) => {
                    if self.entries.len() < self.max_history {
                        match self.find_hash(e.content_hash) {
                            None => {
                                let ghost pre = self.entries@;
                                self.entries.push(e);
                                proof {
                                    assert forall|j: int| 0 <= j < self@.len() implies self@[j]
                                        == before.push(e@)[j] by {
                                        assert(self@[j] == self.entries@[j]@);
                                        if j < pre.len() {
                                            assert(self.entries@[j] == pre[j]);
                                        }
                                    }
                                    assert(self@ =~~= before.push(e@));
                                }
                            },
                            Some(_) => {
                            },
                        }
                    }
                },
                None => {
                },
            }
            i = i + 1;
        }
        proof {
            assert(all.skip(all.len() as int) =~= Seq::<Seq<char>>::empty());
        }
        self.baseline = Some(stamp);
    }

    /// The reconciliation step before a mutation: if the backing file has
    /// been modified past the baseline, the in-memory state is discarded and
    /// replaced by what the file holds. The caller stats the file and passes
    /// the current modification time and the file's text.
    pub fn check_and_reload(&mut self, current: Option<FileStamp>, contents: &str)
        requires
            old(self).wf(),
        ensures
            final(self).wf(),
            final(self).same_frame(old(self)),
            ({
                let stale = match current {
                    Some(c) => match old(self).baseline() {
                        Some(b) => newer_than(c, b),
                        None => true,
                    },
                    None => false,
                };
                if stale {
                    final(self)@ == spec_load(spec_split(contents@), old(self).capacity())
                        && final(self).baseline() == current
                } else {
                    final(self)@ == old(self)@ && final(self).baseline() == old(self).baseline()
                }
            }),
    {
        if self.needs_reload(current) {
            match current {
                Some(c) => {
                    self.load_from_str(contents, c);
                },
                None => {
                },
            }
        }
    }

    /// Records an image capture from its raw encoded bytes. A duplicate
    /// moves its entry to the front; undecodable bytes are an error and
    /// change nothing; otherwise nothing is changed yet and the returned
    /// plan asks the caller to write the blob file and then commit.
    pub fn add_image(&mut self, bytes: &Vec<u8>) -> (r: Result<ImageAction, ImageError>)
        requires
            old(self).wf(),
        ensures
            final(self).wf(),
            final(self).same_frame(old(self)),
            final(self).baseline() == old(self).baseline(),
            ({
                let h = bytes_hash(bytes@);
                match r {
                    Ok(ImageAction::Refreshed) => has_hash(old(self)@, h) && final(self)@
                        == move_front(old(self)@, idx_of_hash(old(self)@, h)),
                    Ok(ImageAction::Write { filename, info, hash }) => {
                        &&& !has_hash(old(self)@, h)
                        &&& crate::imaging::image_dims(bytes@) matches Some(d) && info.width == d.0
                            && info.height == d.1
                        &&& info.size_bytes == bytes@.len()
                        &&& hash == h
                        &&& final(self)@ == old(self)@
                        &&& forall|i: int|
                            0 <= i < old(self)@.len() ==> (#[trigger] old(self)@[i]).content
                                != filename@
                        &&& filename@.len() >= 9
                        &&& filename@.subrange(0, 4) == "img_"@
                        &&& filename@.subrange(filename@.len() - 4, filename@.len() as int)
                            == ".png"@
                    },
                    Err(ImageError::Decode) => !has_hash(old(self)@, h)
                        && crate::imaging::image_dims(bytes@) is None && final(self)@ == old(
                        self,
                    )@,
                    Err(ImageError::Write) => false,
                }
            }),
    {
        let h = hash_bytes(bytes);
        match self.find_hash(h) {
            Some(idx) => {
                self.relocate_to_front(idx);
                proof {
                    let i0 = idx_of_hash(old(self)@, h);
                    assert(0 <= i0 < old(self)@.len() && old(self)@[i0].content_hash == h);
                    assert(i0 == idx as int);
                }
                Ok(ImageAction::Refreshed)
            },
            None => {
                match crate::imaging::decode_dims(bytes) {
                    Some((w, hgt)) => {
                        let ts = crate::clock::now_timestamp();
                        let filename = self.fresh_image_filename(ts);
                        let info = ImageInfo {
                            width: w,
                            height: hgt,
                            size_bytes: bytes.len() as u64,
                        };
                        Ok(ImageAction::Write { filename, info, hash: h })
                    },
                    None => Err(ImageError::Decode),
                }
            },
        }
    }

    /// Inserts a committed image entry at the front, evicting past capacity;
    /// called after the blob file has been written successfully.
    pub fn commit_image(&mut self, filename: String, info: ImageInfo, hash: u64) -> (evicted: Vec<
        String,
    >)
        requires
            old(self).wf(),
            !has_hash(old(self)@, hash),
        ensures
            final(self).wf(),
            final(self).same_frame(old(self)),
            final(self).baseline() == old(self).baseline(),
            final(self)@ == inserted(old(self)@, final(self)@[0], old(self).capacity()),
            final(self)@[0].content_type is Image,
            final(self)@[0].content == filename@,
            final(self)@[0].image_info == Some(info),
            final(self)@[0].content_hash == hash,
            0 <= final(self)@[0].timestamp,
            evicted@.map_values(|s: String| s@) == image_names(
                dropped(seq![final(self)@[0]] + old(self)@, old(self).capacity()),
            ),
    {
        let e = ClipboardEntry::new_image(filename, info, hash);
        self.insert_front_and_evict(e)
    }

    /// A blob filename used by no current entry: `img_<timestamp>.png`, or,
    /// if an entry already carries that name, a name longer than every
    /// current entry's content.
    fn fresh_image_filename(&self, ts: i64) -> (r: String)
        requires
            0 <= ts,
        ensures
            forall|i: int| 0 <= i < self@.len() ==> (#[trigger] self@[i]).content != r@,
            r@.len() >= 9,
            r@.subrange(0, 4) == "img_"@,
            r@.subrange(r@.len() - 4, r@.len() as int) == ".png"@,
    {
        proof {
            crate::text::lemma_dec_digits_facts(ts as nat);
            reveal_strlit("img_");
            reveal_strlit(".png");
        }
        let mut base = String::from_str("img_");
        let t = crate::text::u64_to_string(ts as u64);
        base.append(t.as_str());
        let mut cand = base.clone();
        cand.append(".png");
        proof {
            assert(cand@.subrange(0, 4) =~= "img_"@);
            assert(cand@.subrange(cand@.len() - 4, cand@.len() as int) =~= ".png"@);
            assert(cand@.len() >= 9);
        }
        let mut used = false;
        let mut i: usize = 0;
        while i < self.entries.len()
            invariant
                i <= self.entries@.len(),
                self@ == self.entries@.map_values(|en: ClipboardEntry| en@),
                !used ==> forall|j: int| 0 <= j < i ==> (#[trigger] self@[j]).content != cand@,
            decreases self.entries@.len() - i,
        {
            proof {
                assert(self.entries@[i as int]@ == self@[i as int]);
            }
            if self.entries[i].content == cand {
                used = true;
            }
            i = i + 1;
        }
        if !used {
            return cand;
        }
        // Fall back to a name longer than every entry's content, which no
        // entry can therefore carry.
        let mut m: usize = 0;
        let mut k: usize = 0;
        while k < self.entries.len()
            invariant
                k <= self.entries@.len(),
                self@ == self.entries@.map_values(|en: ClipboardEntry| en@),
                forall|j: int| 0 <= j < k ==> (#[trigger] self@[j]).content.len() <= m,
            decreases self.entries@.len() - k,
        {
            proof {
                assert(self.entries@[k as int]@ == self@[k as int]);
            }
            let l = self.entries[k].content.as_str().unicode_len();
            if l > m {
                m = l;
            }
            k = k + 1;
        }
        let mut zeros = String::new();
        let mut p: usize = 0;
        while p < m
            invariant
                p <= m,
                zeros@.len() == p,
            decreases m - p,
        {
            zeros.push('0');
            p = p + 1;
        }
        let mut out = base;
        out.push('_');
        out.append(zeros.as_str());
        out.append(".png");
        proof {
            reveal_strlit("img_");
            reveal_strlit(".png");
            crate::text::lemma_dec_digits_facts(ts as nat);
            assert(out@.len() > m);
            assert(out@.len() >= 9);
            assert(out@.subrange(0, 4) =~= "img_"@);
            assert(out@.subrange(out@.len() - 4, out@.len() as int) =~= ".png"@);
            assert forall|i2: int| 0 <= i2 < self@.len() implies (#[trigger] self@[i2]).content
                != out@ by {
                assert(self@[i2].content.len() <= m);
            }
        }
        out
    }

    /// Records the modification time of a write the caller just performed.
    pub fn set_baseline(&mut self, stamp: FileStamp)
        ensures
            final(self).baseline() == Some(stamp),
            final(self)@ == old(self)@,
            final(self).same_frame(old(self)),
            final(self).wf() == old(self).wf(),
    {
        self.baseline = Some(stamp);
    }
}

/// An entry as it comes back from a reload: the same fields with the hash
/// recomputed.
pub open spec fn reloaded(e: AbsEntry) -> AbsEntry {
    AbsEntry { content_hash: recomputed_hash(e), ..e }
}

/// An empty line parses as no record.
pub proof fn lemma_parse_empty_line()
    ensures
        spec_parse_entry(Seq::<char>::empty()) is None,
{
    reveal_strlit("{\"content_type\":\"Text\",\"content\":\"");
    reveal_strlit("{\"content_type\":\"Image\",\"content\":\"");
    assert(crate::codec::text_prefix().len() > 0);
    assert(crate::codec::image_prefix().len() > 0);
}

/// Loading the saved text of well-formed entries onto what was already
/// built appends exactly those entries, hashes recomputed.
proof fn lemma_load_save_acc(entries: Seq<AbsEntry>, cap: int, acc: Seq<AbsEntry>)
    requires
        acc.len() + entries.len() <= cap,
        forall|i: int| 0 <= i < entries.len() ==> wf_abs(#[trigger] entries[i]),
        forall|i: int, j: int|
            0 <= i < entries.len() && 0 <= j < entries.len() && i != j ==> recomputed_hash(
                #[trigger] entries[i],
            ) != recomputed_hash(#[trigger] entries[j]),
        forall|i: int|
            0 <= i < entries.len() ==> !has_hash(acc, recomputed_hash(#[trigger] entries[i])),
    ensures
        load_acc(spec_split(spec_save(entries)), cap, acc) == acc + entries.map_values(
            |e: AbsEntry| reloaded(e),
        ),
    decreases entries.len(),
{
    let f = |e: AbsEntry| reloaded(e);
    if entries.len() == 0 {
        assert(spec_save(entries) =~= Seq::<char>::empty());
        assert(spec_split(Seq::<char>::empty()) == seq![Seq::<char>::empty()]);
        lemma_parse_empty_line();
        let lines = spec_split(spec_save(entries));
        assert(lines == seq![Seq::<char>::empty()]);
        assert(lines[0] == Seq::<char>::empty());
        assert(lines.drop_first() =~= Seq::<Seq<char>>::empty());
        assert(spec_parse_entry(lines[0]) is None);
        assert(load_acc(lines.drop_first(), cap, acc) == acc);
        assert(load_acc(spec_split(spec_save(entries)), cap, acc) == acc);
        assert(acc + entries.map_values(f) =~~= acc);
    } else {
        let e0 = entries[0];
        let rest = entries.drop_first();
        let enc = spec_encode_entry(e0);
        assert(spec_save(entries) == enc + seq!['\n'] + spec_save(rest));
        crate::codec::lemma_encode_entry_no_newline(e0);
        crate::codec::lemma_split_line(enc, spec_save(rest));
        let lines = spec_split(spec_save(entries));
        assert(lines == seq![enc] + spec_split(spec_save(rest)));
        assert(lines[0] == enc);
        assert(lines.drop_first() =~~= spec_split(spec_save(rest)));
        crate::codec::lemma_parse_encode_entry(e0);
        assert(spec_parse_entry(enc) == Some(reloaded(e0)));
        assert(acc.len() < cap);
        assert(!has_hash(acc, reloaded(e0).content_hash));
        let acc2 = acc.push(reloaded(e0));
        assert(load_acc(lines, cap, acc) == load_acc(lines.drop_first(), cap, acc2));
        assert forall|i: int| 0 <= i < rest.len() implies wf_abs(#[trigger] rest[i]) by {
            assert(rest[i] == entries[i + 1]);
        }
        assert forall|i: int, j: int|
            0 <= i < rest.len() && 0 <= j < rest.len() && i != j implies recomputed_hash(
            #[trigger] rest[i],
        ) != recomputed_hash(#[trigger] rest[j]) by {
            assert(rest[i] == entries[i + 1]);
            assert(rest[j] == entries[j + 1]);
        }
        assert forall|i: int| 0 <= i < rest.len() implies !has_hash(
            acc2,
            recomputed_hash(#[trigger] rest[i]),
        ) by {
            assert(rest[i] == entries[i + 1]);
            let h = recomputed_hash(entries[i + 1]);
            if has_hash(acc2, h) {
                let k = choose|k: int| 0 <= k < acc2.len() && acc2[k].content_hash == h;
                if k < acc.len() {
                    assert(acc2[k] == acc[k]);
                    assert(has_hash(acc, h));
                } else {
                    assert(acc2[k] == reloaded(e0));
                    assert(recomputed_hash(entries[0]) == h);
                }
            }
        }
        lemma_load_save_acc(rest, cap, acc2);
        assert(acc + entries.map_values(f) =~~= acc2 + rest.map_values(f)) by {
            assert(entries.map_values(f).len() == entries.len());
            assert(forall|i: int|
                0 <= i < entries.len() ==> entries.map_values(f)[i] == f(entries[i]));
            assert(forall|i: int| 0 <= i < rest.len() ==> rest.map_values(f)[i] == f(rest[i]));
            assert(forall|i: int| 0 <= i < rest.len() ==> rest[i] == entries[i + 1]);
        }
    }
}

/// Durability: what a save writes, a fresh load on the same capacity reads
/// back as the very same sequence, with each entry's hash recomputed the
/// way a load recomputes it. Text entries come back identical; an image
/// entry comes back with its hash rebuilt from filename and timestamp.
pub proof fn lemma_save_load_round_trip(entries: Seq<AbsEntry>, cap: int)
    requires
        entries.len() <= cap,
        forall|i: int| 0 <= i < entries.len() ==> wf_abs(#[trigger] entries[i]),
        forall|i: int, j: int|
            0 <= i < entries.len() && 0 <= j < entries.len() && i != j ==> recomputed_hash(
                #[trigger] entries[i],
            ) != recomputed_hash(#[trigger] entries[j]),
    ensures
        spec_load(spec_split(spec_save(entries)), cap) == entries.map_values(
            |e: AbsEntry| reloaded(e),
        ),
{
    lemma_load_save_acc(entries, cap, Seq::empty());
    assert(Seq::<AbsEntry>::empty() + entries.map_values(|e: AbsEntry| reloaded(e))
        =~~= entries.map_values(|e: AbsEntry| reloaded(e)));
}

/// A text entry survives a save and a load unchanged: its recomputed hash
/// is the hash it already carries.
pub proof fn lemma_text_entry_reload_identity(e: AbsEntry)
    requires
        wf_abs(e),
        e.content_type is Text,
    ensures
        reloaded(e) == e,
{
}

/// Within capacity, an insertion loses nothing: the new entry stands at the
/// front and every earlier entry keeps its place, one position later. With
/// callers serialized over one store, a run of fresh insertions therefore
/// leaves each of them present exactly once.
pub proof fn lemma_insert_keeps_entries(s: Seq<AbsEntry>, e: AbsEntry, cap: int)
    requires
        s.len() + 1 <= cap,
    ensures
        inserted(s, e, cap).len() == s.len() + 1,
        inserted(s, e, cap)[0] == e,
        forall|i: int| 0 <= i < s.len() ==> inserted(s, e, cap)[i + 1] == s[i],
{
}

} // verus!
