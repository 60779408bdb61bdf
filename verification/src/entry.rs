//! The entry model: the value type for one recorded clipboard capture and
//! its derived identity hash.

use crate::hashing::fnv_fold;
use crate::hashing::hash_str;
use crate::hashing::image_meta_hash;
use crate::hashing::text_hash;
use crate::helpers::format_size;
use crate::helpers::spec_format_size;
use crate::text::chars_to_string;
use crate::text::dec_digits;
use crate::text::digit_char;
use crate::text::digit_to_char;
use crate::text::spec_trim;
use crate::text::str_to_chars;
use crate::text::trim_chars;
use crate::text::u64_to_string;
use vstd::prelude::*;
use vstd::string::StrSliceExecFns;
use vstd::string::StringExecFns;

verus! {

/// The kind of content an entry records.
#[derive(Clone, Copy, PartialEq, Eq, Structural, Debug)]
pub enum ClipboardContentType {
    Text,
    Image,
}

/// Pixel dimensions and encoded byte size of an image entry.
#[derive(Clone, Copy, PartialEq, Eq, Structural, Debug)]
pub struct ImageInfo {
    pub width: u32,
    pub height: u32,
    pub size_bytes: u64,
}

/// One recorded clipboard capture. For text, `content` is the text itself;
/// for an image, `content` is the blob filename in the image directory.
pub struct ClipboardEntry {
    pub content_type: ClipboardContentType,
    pub content: String,
    pub timestamp: i64,
    pub image_info: Option<ImageInfo>,
    pub content_hash: u64,
}

/// The mathematical shape of an entry.
pub ghost struct AbsEntry {
    pub content_type: ClipboardContentType,
    pub content: Seq<char>,
    pub timestamp: i64,
    pub image_info: Option<ImageInfo>,
    pub content_hash: u64,
}

impl View for ClipboardEntry {
    type V = AbsEntry;

    open spec fn view(&self) -> AbsEntry {
        AbsEntry {
            content_type: self.content_type,
            content: self.content@,
            timestamp: self.timestamp,
            image_info: self.image_info,
            content_hash: self.content_hash,
        }
    }
}

/// Well-formedness of an entry: a non-negative timestamp, image details
/// exactly on image entries, and, for text, the hash derived from the
/// content.
pub open spec fn wf_abs(e: AbsEntry) -> bool {
    &&& 0 <= e.timestamp
    &&& (e.content_type is Image <==> e.image_info is Some)
    &&& (e.content_type is Text ==> e.content_hash == text_hash(e.content))
}

/// The hash an entry gets when it is recomputed after deserialization: text
/// hashes its content; an image hashes its blob filename and timestamp,
/// since the raw bytes are not re-read on load.
pub open spec fn recomputed_hash(e: AbsEntry) -> u64 {
    if e.content_type is Text {
        text_hash(e.content)
    } else {
        image_meta_hash(e.content, e.timestamp)
    }
}

impl Clone for ClipboardEntry {
    fn clone(&self) -> (r: Self)
        ensures
            r == *self,
    {
        ClipboardEntry {
            content_type: self.content_type,
            content: self.content.clone(),
            timestamp: self.timestamp,
            image_info: self.image_info,
            content_hash: self.content_hash,
        }
    }
}

impl ClipboardEntry {
    /// Builds a text entry; the hash is derived from the content, and the
    /// timestamp is the present moment.
    pub fn new_text(content: String) -> (r: Self)
        ensures
            r@.content_type is Text,
            r@.content == content@,
            r@.image_info is None,
            r@.content_hash == text_hash(content@),
            wf_abs(r@),
    {
        let content_hash = hash_str(content.as_str());
        ClipboardEntry {
            content_type: ClipboardContentType::Text,
            content,
            timestamp: crate::clock::now_timestamp(),
            image_info: None,
            content_hash,
        }
    }

    /// Builds an image entry; the hash is supplied by the caller, computed
    /// from the raw bytes before the blob file is written.
    pub fn new_image(filename: String, info: ImageInfo, hash: u64) -> (r: Self)
        ensures
            r@.content_type is Image,
            r@.content == filename@,
            r@.image_info == Some(info),
            r@.content_hash == hash,
            wf_abs(r@),
    {
        ClipboardEntry {
            content_type: ClipboardContentType::Image,
            content: filename,
            timestamp: crate::clock::now_timestamp(),
            image_info: Some(info),
            content_hash: hash,
        }
    }

    /// Recomputes the derived hash, as done for every entry loaded from
    /// disk.
    pub fn compute_hash(&mut self)
        ensures
            final(self)@ == (AbsEntry { content_hash: recomputed_hash(old(self)@), ..old(self)@ }),
    {
        match self.content_type {
            ClipboardContentType::Text => {
                self.content_hash = hash_str(self.content.as_str());
            },
            ClipboardContentType::Image => {
                let h = hash_str(self.content.as_str());
                self.content_hash = fnv_fold(h, #[verifier::truncate] (self.timestamp as u64));
            },
        }
    }

    /// The entry's capture time as `HH:MM:SS`.
    pub fn formatted_time(&self) -> (r: String)
        ensures
            r@ == spec_formatted_time(self.timestamp),
    {
        if self.timestamp < 0 {
            let mut r = String::new();
            r.append("--:--:--");
            r
        } else {
            let t = self.timestamp as u64;
            let mut r = two_digit_string((t / 3600) % 24);
            r.append(":");
            let m = two_digit_string((t / 60) % 60);
            r.append(m.as_str());
            r.append(":");
            let s = two_digit_string(t % 60);
            r.append(s.as_str());
            r
        }
    }

    /// The text shown for the entry in the list view: text flattened to one
    /// line, trimmed and shortened; images summarized by their dimensions
    /// and size.
    pub fn display_content(&self) -> (r: String)
        ensures
            r@ == spec_display_content(self@),
    {
        match self.content_type {
            ClipboardContentType::Text => {
                let cs = str_to_chars(self.content.as_str());
                let mut mapped: Vec<char> = Vec::new();
                let mut i: usize = 0;
                while i < cs.len()
                    invariant
                        i <= cs@.len(),
                        mapped@ == sanitize(cs@).take(i as int),
                    decreases cs@.len() - i,
                {
                    let c = cs[i];
                    if c == '\n' || c == '\t' {
                        mapped.push(' ');
                    } else {
                        mapped.push(c);
                    }
                    proof {
                        assert(sanitize(cs@).take(i + 1 as int) =~= sanitize(cs@).take(
                            i as int,
                        ).push(sanitize(cs@)[i as int]));
                    }
                    i = i + 1;
                }
                proof {
                    assert(sanitize(cs@).take(cs@.len() as int) =~= sanitize(cs@));
                }
                let trimmed = trim_chars(&mapped);
                let n = trimmed.as_str().unicode_len();
                if n > crate::MAX_DISPLAY_LENGTH {
                    let tcs = str_to_chars(trimmed.as_str());
                    let mut r = chars_to_string(&tcs, 0, crate::MAX_DISPLAY_LENGTH);
                    r.append("...");
                    proof {
                        assert(tcs@.subrange(0, crate::MAX_DISPLAY_LENGTH as int) =~= spec_trim(
                            sanitize(self.content@),
                        ).take(crate::MAX_DISPLAY_LENGTH as int));
                    }
                    r
                } else {
                    trimmed
                }
            },
            ClipboardContentType::Image => {
                match &self.image_info {
                    Some(info) => {
                        let mut r = String::new();
                        r.append("Image ");
                        let w = u64_to_string(info.width as u64);
                        r.append(w.as_str());
                        r.append("\u{d7}");
                        let h = u64_to_string(info.height as u64);
                        r.append(h.as_str());
                        r.append(" (");
                        let sz = format_size(info.size_bytes);
                        r.append(sz.as_str());
                        r.append(")");
                        r
                    },
                    None => {
                        let mut r = String::new();
                        r.append("Image");
                        r
                    },
                }
            },
        }
    }

    /// The marker glyph for the entry's kind.
    pub fn icon(&self) -> (r: &'static str)
        ensures
            self@.content_type is Text ==> r@ == "\u{1f4dd}"@,
            self@.content_type is Image ==> r@ == "\u{1f5bc}\u{fe0f}"@,
    {
        match self.content_type {
            ClipboardContentType::Text => "\u{1f4dd}",
            ClipboardContentType::Image => "\u{1f5bc}\u{fe0f}",
        }
    }
}

/// Two decimal digits, zero-padded.
pub open spec fn two_digits(n: int) -> Seq<char> {
    seq![digit_char(n / 10), digit_char(n % 10)]
}

/// `HH:MM:SS` for a non-negative timestamp; the placeholder otherwise.
pub open spec fn spec_formatted_time(ts: i64) -> Seq<char> {
    if ts < 0 {
        "--:--:--"@
    } else {
        two_digits((ts / 3600) % 24) + ":"@ + two_digits((ts / 60) % 60) + ":"@ + two_digits(
            (ts as int) % 60,
        )
    }
}

/// Newlines and tabs replaced by spaces.
pub open spec fn sanitize(s: Seq<char>) -> Seq<char> {
    s.map(|_i: int, c: char| if c == '\n' || c == '\t' { ' ' } else { c })
}

/// The list-view text of an entry.
pub open spec fn spec_display_content(e: AbsEntry) -> Seq<char> {
    if e.content_type is Text {
        let t = spec_trim(sanitize(e.content));
        if t.len() > crate::MAX_DISPLAY_LENGTH {
            t.take(crate::MAX_DISPLAY_LENGTH as int) + "..."@
        } else {
            t
        }
    } else {
        match e.image_info {
            Some(info) => "Image "@ + dec_digits(info.width as nat) + "\u{d7}"@ + dec_digits(
                info.height as nat,
            ) + " ("@ + spec_format_size(info.size_bytes as nat) + ")"@,
            None => "Image"@,
        }
    }
}

/// Prints a value below one hundred as exactly two digits.
fn two_digit_string(n: u64) -> (r: String)
    requires
        n < 100,
    ensures
        r@ == two_digits(n as int),
{
    let mut r = String::new();
    r.push(digit_to_char(n / 10));
    r.push(digit_to_char(n % 10));
    proof {
        assert(r@ =~= two_digits(n as int));
    }
    r
}

} // verus!
