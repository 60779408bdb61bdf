//! Version handling for the window-rule auto-configuration: deciding
//! whether a reported compositor version reaches a target. Running the
//! configuration commands lives outside.

use crate::text::digits_value;
use crate::text::is_digit_char;
use crate::codec::lemma_digits_value_nonneg;
use crate::codec::lemma_digits_value_take_le;
use crate::text::str_to_chars;
use vstd::prelude::*;

verus! {

/// The index of the first occurrence of `c` in `s`, or the length if there
/// is none.
pub open spec fn find_char(s: Seq<char>, c: char) -> int
    decreases s.len(),
{
    if s.len() == 0 {
        0
    } else if s[0] == c {
        0
    } else {
        1 + find_char(s.drop_first(), c)
    }
}

/// The first occurrence is a well-defined position.
pub proof fn lemma_find_char(s: Seq<char>, c: char)
    ensures
        0 <= find_char(s, c) <= s.len(),
        forall|m: int| 0 <= m < find_char(s, c) ==> #[trigger] s[m] != c,
        find_char(s, c) < s.len() ==> s[find_char(s, c)] == c,
    decreases s.len(),
{
    if s.len() > 0 && s[0] != c {
        lemma_find_char(s.drop_first(), c);
        let t = s.drop_first();
        assert(forall|m: int| 1 <= m < find_char(s, c) ==> s[m] == t[m - 1]);
    }
}

/// The value of a segment read as a decimal number, or zero when it is
/// empty, has a non-digit, or exceeds the type's range — the behavior of
/// parsing with a zero fallback.
pub open spec fn parse_u32_or_zero(seg: Seq<char>) -> u32 {
    if seg.len() > 0 && (forall|i: int| 0 <= i < seg.len() ==> is_digit_char(#[trigger] seg[i]))
        && digits_value(seg) <= u32::MAX as int {
        digits_value(seg) as u32
    } else {
        0
    }
}

/// Whether a version text of the shape `major.minor...`, possibly with a
/// `-suffix`, reaches the target major and minor. A text without two
/// dot-separated parts before the first dash never does; parts that fail to
/// parse count as zero.
pub open spec fn spec_is_version_ge(s: Seq<char>, tmaj: u32, tmin: u32) -> bool {
    let clean = s.take(find_char(s, '-'));
    let p1 = find_char(clean, '.');
    if p1 == clean.len() {
        false
    } else {
        let rest = clean.skip(p1 + 1);
        let maj = parse_u32_or_zero(clean.take(p1));
        let min = parse_u32_or_zero(rest.take(find_char(rest, '.')));
        maj > tmaj || (maj == tmaj && min >= tmin)
    }
}

/// The first index in `[from, to)` where `c` stands, or `to`.
fn find_in(cs: &Vec<char>, from: usize, to: usize, c: char) -> (r: usize)
    requires
        from <= to <= cs@.len(),
    ensures
        from <= r <= to,
        forall|m: int| from <= m < r ==> #[trigger] cs@[m] != c,
        r < to ==> cs@[r as int] == c,
{
    let mut i: usize = from;
    while i < to
        invariant
            from <= i <= to <= cs@.len(),
            forall|m: int| from <= m < i ==> #[trigger] cs@[m] != c,
        decreases to - i,
    {
        if cs[i] == c {
            return i;
        }
        i = i + 1;
    }
    i
}

/// Parses `cs[lo..hi]` as a decimal number, with zero for anything that is
/// not a number in range.
fn parse_segment_u32(cs: &Vec<char>, lo: usize, hi: usize) -> (r: u32)
    requires
        lo <= hi <= cs@.len(),
    ensures
        r == parse_u32_or_zero(cs@.subrange(lo as int, hi as int)),
{
    let ghost seg = cs@.subrange(lo as int, hi as int);
    if lo == hi {
        return 0;
    }
    let mut i: usize = lo;
    while i < hi
        invariant
            lo <= i <= hi <= cs@.len(),
            seg == cs@.subrange(lo as int, hi as int),
            forall|m: int| 0 <= m < i - lo ==> is_digit_char(#[trigger] seg[m]),
        decreases hi - i,
    {
        if !crate::codec::is_digit(cs[i]) {
            proof {
                assert(seg[i - lo] == cs@[i as int]);
            }
            return 0;
        }
        proof {
            assert(seg[i - lo] == cs@[i as int]);
        }
        i = i + 1;
    }
    let mut v: u32 = 0;
    let mut k: usize = lo;
    proof {
        assert(seg.take(0) =~= Seq::<char>::empty());
    }
    while k < hi
        invariant
            lo <= k <= hi <= cs@.len(),
            seg == cs@.subrange(lo as int, hi as int),
            forall|m: int| 0 <= m < seg.len() ==> is_digit_char(#[trigger] seg[m]),
            v as int == digits_value(seg.take(k - lo)),
            digits_value(seg.take(k - lo)) <= u32::MAX as int,
        decreases hi - k,
    {
        let ghost m = k - lo;
        proof {
            assert(seg[m] == cs@[k as int]);
        }
        let d = crate::codec::digit_val_exec(cs[k]);
        proof {
            assert(seg.take(m + 1).drop_last() =~= seg.take(m));
            assert(seg.take(m + 1).last() == seg[m]);
            assert(digits_value(seg.take(m + 1)) == digits_value(seg.take(m)) * 10
                + crate::text::digit_val(seg[m]));
        }
        if v > (u32::MAX - (d as u32)) / 10 {
            proof {
                lemma_digits_value_nonneg(seg.take(m));
                assert(digits_value(seg.take(m + 1)) > u32::MAX as int) by (nonlinear_arith)
                    requires
                        digits_value(seg.take(m + 1)) == digits_value(seg.take(m)) * 10
                            + crate::text::digit_val(seg[m]),
                        digits_value(seg.take(m)) == v as int,
                        crate::text::digit_val(seg[m]) == d as int,
                        v > (u32::MAX - (d as u32)) / 10,
                        d < 10,
                        v >= 0,
                ;
                lemma_digits_value_take_le(seg, m + 1);
                assert(seg.take(seg.len() as int) =~= seg);
            }
            return 0;
        }
        proof {
            assert(v * 10 + d <= u32::MAX) by (nonlinear_arith)
                requires
                    v <= (u32::MAX - (d as u32)) / 10,
                    0 <= d < 10,
                    0 <= v,
            ;
        }
        v = v * 10 + (d as u32);
        k = k + 1;
    }
    proof {
        assert(seg.take(seg.len() as int) =~= seg);
    }
    v
}

/// Whether a reported version string reaches the target major and minor.
pub fn is_version_ge(version_str: &str, target_major: u32, target_minor: u32) -> (r: bool)
    ensures
        r == spec_is_version_ge(version_str@, target_major, target_minor),
{
    let cs = str_to_chars(version_str);
    let ghost s = cs@;
    let dash = find_in(&cs, 0, cs.len(), '-');
    proof {
        lemma_find_char(s, '-');
        assert(find_char(s, '-') == dash as int);
    }
    let ghost clean = s.take(dash as int);
    let p1 = find_in(&cs, 0, dash, '.');
    proof {
        lemma_find_char(clean, '.');
        assert(forall|m: int| 0 <= m < clean.len() ==> clean[m] == s[m]);
        assert(find_char(clean, '.') == p1 as int);
    }
    if p1 == dash {
        return false;
    }
    let ghost rest = clean.skip(p1 + 1);
    let p2 = find_in(&cs, p1 + 1, dash, '.');
    proof {
        lemma_find_char(rest, '.');
        assert(rest.len() == dash - (p1 + 1));
        assert(forall|m: int| 0 <= m < rest.len() ==> rest[m] == s[p1 + 1 + m]);
        let f = find_char(rest, '.');
        if p2 < dash {
            assert(cs@[p2 as int] == '.');
            assert(rest[p2 - (p1 + 1)] == '.');
            if f < p2 - (p1 + 1) {
                assert(rest[f] == s[p1 + 1 + f]);
                assert(cs@[p1 + 1 + f] != '.');
                assert(rest[f] == '.');
                assert(false);
            }
            if f > p2 - (p1 + 1) {
                assert(rest[p2 - (p1 + 1)] != '.');
                assert(false);
            }
        } else {
            if f < rest.len() {
                assert(rest[f] == '.');
                assert(rest[f] == s[p1 + 1 + f]);
                assert(cs@[p1 + 1 + f] != '.');
                assert(false);
            }
        }
        assert(f == p2 - (p1 + 1));
        assert(clean.take(p1 as int) =~= s.subrange(0, p1 as int));
        assert(rest.take(p2 - (p1 + 1)) =~= s.subrange(p1 + 1 as int, p2 as int));
    }
    let maj = parse_segment_u32(&cs, 0, p1);
    let min = parse_segment_u32(&cs, p1 + 1, p2);
    maj > target_major || (maj == target_major && min >= target_minor)
}

/// The sequence with its leading `v` characters removed.
pub open spec fn strip_leading_v(s: Seq<char>) -> Seq<char>
    decreases s.len(),
{
    if s.len() > 0 && s[0] == 'v' {
        strip_leading_v(s.drop_first())
    } else {
        s
    }
}

/// Whether a line reports the version tag.
pub open spec fn is_tag_line(line: Seq<char>) -> bool {
    crate::codec::spec_expect(crate::text::spec_trim(line), "Tag:"@) is Some
}

/// The version a tag line carries: the text between the line's first and
/// second colons, trimmed, with leading `v` characters removed.
pub open spec fn version_from_line(line: Seq<char>) -> Option<Seq<char>> {
    let p1 = find_char(line, ':');
    if p1 == line.len() {
        None
    } else {
        let rest2 = line.skip(p1 + 1);
        let piece = rest2.take(find_char(rest2, ':'));
        Some(strip_leading_v(crate::text::spec_trim(piece)))
    }
}

/// The version reported by the first tag line, if any.
pub open spec fn first_tag(lines: Seq<Seq<char>>) -> Option<Seq<char>>
    decreases lines.len(),
{
    if lines.len() == 0 {
        None
    } else if is_tag_line(lines[0]) {
        version_from_line(lines[0])
    } else {
        first_tag(lines.drop_first())
    }
}

/// The version tag in a compositor's version report.
pub open spec fn spec_version_tag(s: Seq<char>) -> Option<Seq<char>> {
    first_tag(crate::codec::spec_split(s))
}

/// Extracts the version from a version report: the first line whose trimmed
/// text opens with `Tag:` decides, and yields the text between the line's
/// first two colons, trimmed and with leading `v` characters removed.
pub fn parse_version_tag(output: &str) -> (r: Option<String>)
    ensures
        match r {
            None => spec_version_tag(output@) is None,
            Some(v) => spec_version_tag(output@) == Some(v@),
        },
{
    let cs = str_to_chars(output);
    let segs = crate::codec::split_segments(&cs);
    let ghost all = crate::codec::spec_split(cs@);
    let ghost fv = |v: Vec<char>| v@;
    proof {
        assert(segs@.map_values(fv) == all);
        assert(all.skip(0) =~= all);
    }
    let mut i: usize = 0;
    while i < segs.len()
        invariant
            i <= segs@.len(),
            segs@.map_values(|v: Vec<char>| v@) == all,
            all == crate::codec::spec_split(output@),
            first_tag(all) == first_tag(all.skip(i as int)),
        decreases segs@.len() - i,
    {
        proof {
            assert(segs@.map_values(fv)[i as int] == fv(segs@[i as int]));
            assert(all[i as int] == segs@[i as int]@);
            assert(all.skip(i as int)[0] == all[i as int]);
            assert(all.skip(i as int).drop_first() =~= all.skip(i + 1 as int));
        }
        let line = &segs[i];
        let ghost lv = line@;
        let trimmed = crate::text::trim_chars(line);
        let tcs = str_to_chars(trimmed.as_str());
        proof {
            assert(tcs@.skip(0) =~= tcs@);
        }
        match crate::codec::expect_lit(&tcs, 0, "Tag:") {
            Some(_) => {
                proof {
                    assert(is_tag_line(lv));
                }
                let p1 = find_in(line, 0, line.len(), ':');
                proof {
                    lemma_find_char(lv, ':');
                    assert(find_char(lv, ':') == p1 as int);
                }
                if p1 == line.len() {
                    proof {
                        assert(version_from_line(lv) is None);
                        assert(first_tag(all.skip(i as int)) == version_from_line(all[i as int]));
                        assert(all == crate::codec::spec_split(output@));
                    }
                    return None;
                }
                let ghost rest2 = lv.skip(p1 + 1);
                let p2 = find_in(line, p1 + 1, line.len(), ':');
                proof {
                    lemma_find_char(rest2, ':');
                    assert(rest2.len() == lv.len() - (p1 + 1));
                    assert(forall|m: int| 0 <= m < rest2.len() ==> rest2[m] == lv[p1 + 1 + m]);
                    let f = find_char(rest2, ':');
                    if p2 < lv.len() {
                        assert(lv[p2 as int] == ':');
                        assert(rest2[p2 - (p1 + 1)] == ':');
                        if f < p2 - (p1 + 1) {
                            assert(rest2[f] == lv[p1 + 1 + f]);
                            assert(lv[p1 + 1 + f] != ':');
                            assert(rest2[f] == ':');
                            assert(false);
                        }
                        if f > p2 - (p1 + 1) {
                            assert(rest2[p2 - (p1 + 1)] != ':');
                            assert(false);
                        }
                    } else {
                        if f < rest2.len() {
                            assert(rest2[f] == ':');
                            assert(rest2[f] == lv[p1 + 1 + f]);
                            assert(lv[p1 + 1 + f] != ':');
                            assert(false);
                        }
                    }
                    assert(f == p2 - (p1 + 1));
                    assert(rest2.take(f) =~= lv.subrange(p1 + 1 as int, p2 as int));
                }
                let pstr = crate::text::chars_to_string(line, p1 + 1, p2);
                let pvec = str_to_chars(pstr.as_str());
                let ptrim = crate::text::trim_chars(&pvec);
                let tvec = str_to_chars(ptrim.as_str());
                let mut k: usize = 0;
                proof {
                    assert(tvec@.skip(0) =~= tvec@);
                }
                while k < tvec.len() && tvec[k] == 'v'
                    invariant
                        k <= tvec@.len(),
                        strip_leading_v(tvec@) == strip_leading_v(tvec@.skip(k as int)),
                    decreases tvec@.len() - k,
                {
                    proof {
                        assert(tvec@.skip(k as int)[0] == tvec@[k as int]);
                        assert(tvec@.skip(k as int).drop_first() =~= tvec@.skip(k + 1 as int));
                    }
                    k = k + 1;
                }
                proof {
                    assert(strip_leading_v(tvec@) == tvec@.skip(k as int));
                }
                let out = crate::text::chars_to_string(&tvec, k, tvec.len());
                proof {
                    assert(tvec@.subrange(k as int, tvec@.len() as int) =~= tvec@.skip(k as int));
                    assert(version_from_line(lv) == Some(out@));
                    assert(first_tag(all.skip(i as int)) == version_from_line(all[i as int]));
                    assert(all == crate::codec::spec_split(output@));
                }
                return Some(out);
            },
            None => {
                proof {
                    assert(!is_tag_line(lv));
                }
            },
        }
        i = i + 1;
    }
    proof {
        assert(all.skip(all.len() as int) =~= Seq::<Seq<char>>::empty());
    }
    None
}

} // verus!
