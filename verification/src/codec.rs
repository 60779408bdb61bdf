//! The record codec for the backing file: one JSON object per line, with a
//! fixed field order and a canonical string escaping. Encoding and parsing
//! are written here directly over characters, and parsing of a canonical
//! encoding is proved to give back exactly what was encoded.

use crate::entry::AbsEntry;
use crate::entry::ClipboardContentType;
use crate::entry::ClipboardEntry;
use crate::entry::ImageInfo;
use crate::hashing::image_meta_hash;
use crate::hashing::text_hash;
use crate::entry::wf_abs;
use crate::text::digit_char;
use crate::text::digit_to_char;
use crate::text::digit_val;
use crate::text::digits_value;
use crate::text::dec_digits;
use crate::text::is_digit_char;
use crate::text::lemma_dec_digits_facts;
use vstd::prelude::*;
use vstd::string::StrSliceExecFns;
use vstd::string::StringExecFns;

verus! {

// ---------------------------------------------------------------------------
// Hex digits for the \u00XX escape form
// ---------------------------------------------------------------------------
/// The lowercase hex digit character for a value below sixteen.
pub open spec fn hex_char(d: int) -> char {
    if d < 10 {
        digit_char(d)
    } else if d == 10 {
        'a'
    } else if d == 11 {
        'b'
    } else if d == 12 {
        'c'
    } else if d == 13 {
        'd'
    } else if d == 14 {
        'e'
    } else {
        'f'
    }
}

/// Whether a character is a lowercase hex digit.
pub open spec fn is_hex_lower(c: char) -> bool {
    is_digit_char(c) || c == 'a' || c == 'b' || c == 'c' || c == 'd' || c == 'e' || c == 'f'
}

/// The value of a lowercase hex digit.
pub open spec fn hex_val(c: char) -> int {
    if is_digit_char(c) {
        digit_val(c)
    } else if c == 'a' {
        10
    } else if c == 'b' {
        11
    } else if c == 'c' {
        12
    } else if c == 'd' {
        13
    } else if c == 'e' {
        14
    } else {
        15
    }
}

/// Exec counterpart of hex_char.
fn hex_to_char(d: u32) -> (r: char)
    requires
        d < 16,
    ensures
        r == hex_char(d as int),
{
    if d < 10 {
        digit_to_char(d as u64)
    } else if d == 10 {
        'a'
    } else if d == 11 {
        'b'
    } else if d == 12 {
        'c'
    } else if d == 13 {
        'd'
    } else if d == 14 {
        'e'
    } else {
        'f'
    }
}

// ---------------------------------------------------------------------------
// String escaping
// ---------------------------------------------------------------------------
/// The canonical escape of one character inside a JSON string: quote,
/// backslash and the common control characters take their two-character
/// forms, other control characters take \u00XX with lowercase hex, and
/// everything else stands for itself.
pub open spec fn escape_char(c: char) -> Seq<char> {
    if c == '"' {
        seq!['\\', '"']
    } else if c == '\\' {
        seq!['\\', '\\']
    } else if c == '\n' {
        seq!['\\', 'n']
    } else if c == '\r' {
        seq!['\\', 'r']
    } else if c == '\t' {
        seq!['\\', 't']
    } else if (c as u32) < 0x20 {
        seq!['\\', 'u', '0', '0', hex_char((c as u32) as int / 16), hex_char((c as u32) as int % 16)]
    } else {
        seq![c]
    }
}

/// The canonical escape of a whole string body.
pub open spec fn escape_seq(s: Seq<char>) -> Seq<char>
    decreases s.len(),
{
    if s.len() == 0 {
        Seq::empty()
    } else {
        escape_char(s[0]) + escape_seq(s.drop_first())
    }
}

/// Escaping distributes over concatenation.
pub proof fn lemma_escape_seq_concat(a: Seq<char>, b: Seq<char>)
    ensures
        escape_seq(a + b) == escape_seq(a) + escape_seq(b),
    decreases a.len(),
{
    if a.len() == 0 {
        assert(a + b =~= b);
        assert(escape_seq(a) + escape_seq(b) =~= escape_seq(b));
    } else {
        assert((a + b).drop_first() =~= a.drop_first() + b);
        assert((a + b)[0] == a[0]);
        lemma_escape_seq_concat(a.drop_first(), b);
        assert(escape_char(a[0]) + (escape_seq(a.drop_first()) + escape_seq(b)) =~= (escape_char(
            a[0],
        ) + escape_seq(a.drop_first())) + escape_seq(b));
    }
}

/// No escape output character is a newline.
pub proof fn lemma_escape_char_no_newline(c: char)
    ensures
        forall|i: int| 0 <= i < escape_char(c).len() ==> escape_char(c)[i] != '\n',
{
}

/// An escaped string body contains no newline.
pub proof fn lemma_escape_seq_no_newline(s: Seq<char>)
    ensures
        forall|i: int| 0 <= i < escape_seq(s).len() ==> escape_seq(s)[i] != '\n',
    decreases s.len(),
{
    if s.len() > 0 {
        lemma_escape_char_no_newline(s[0]);
        lemma_escape_seq_no_newline(s.drop_first());
        let e = escape_char(s[0]);
        let t = escape_seq(s.drop_first());
        assert(escape_seq(s) == e + t);
        assert forall|i: int| 0 <= i < escape_seq(s).len() implies escape_seq(s)[i] != '\n' by {
            if i < e.len() {
                assert(escape_seq(s)[i] == e[i]);
            } else {
                assert(escape_seq(s)[i] == t[i - e.len()]);
            }
        }
    }
}

/// Appends the canonical escape of the characters to the string.
pub fn append_escaped(out: &mut String, cs: &Vec<char>)
    ensures
        final(out)@ == old(out)@ + escape_seq(cs@),
{
    let mut i: usize = 0;
    while i < cs.len()
        invariant
            i <= cs@.len(),
            out@ == old(out)@ + escape_seq(cs@.take(i as int)),
        decreases cs@.len() - i,
    {
        let c = cs[i];
        if c == '"' {
            out.push('\\');
            out.push('"');
        } else if c == '\\' {
            out.push('\\');
            out.push('\\');
        } else if c == '\n' {
            out.push('\\');
            out.push('n');
        } else if c == '\r' {
            out.push('\\');
            out.push('r');
        } else if c == '\t' {
            out.push('\\');
            out.push('t');
        } else {
            let v = c as u32;
            if v < 0x20 {
                out.push('\\');
                out.push('u');
                out.push('0');
                out.push('0');
                out.push(hex_to_char(v / 16));
                out.push(hex_to_char(v % 16));
            } else {
                out.push(c);
            }
        }
        proof {
            assert(cs@.take(i + 1 as int) =~= cs@.take(i as int) + seq![cs@[i as int]]);
            lemma_escape_seq_concat(cs@.take(i as int), seq![cs@[i as int]]);
            assert(seq![cs@[i as int]][0] == cs@[i as int]);
            assert(seq![cs@[i as int]].drop_first() =~= Seq::<char>::empty());
            assert(escape_seq(seq![cs@[i as int]]) =~= escape_char(cs@[i as int]) + escape_seq(
                Seq::<char>::empty(),
            ));
            assert(escape_seq(seq![cs@[i as int]]) =~= escape_char(cs@[i as int]));
            assert(out@ =~= old(out)@ + escape_seq(cs@.take(i + 1 as int)));
        }
        i = i + 1;
    }
    proof {
        assert(cs@.take(cs@.len() as int) =~= cs@);
    }
}

// ---------------------------------------------------------------------------
// Parsing primitives, at the spec level
// ---------------------------------------------------------------------------
/// The character for a short escape form.
pub open spec fn unescape_short(e: char) -> char {
    if e == '"' {
        '"'
    } else if e == '\\' {
        '\\'
    } else if e == 'n' {
        '\n'
    } else if e == 'r' {
        '\r'
    } else {
        '\t'
    }
}

/// Parses a canonical string body up to and over its closing quote,
/// returning the unescaped content and the remainder. Non-canonical input
/// is rejected.
pub open spec fn spec_parse_string(s: Seq<char>) -> Option<(Seq<char>, Seq<char>)>
    decreases s.len(),
{
    if s.len() == 0 {
        None
    } else if s[0] == '"' {
        Some((Seq::empty(), s.drop_first()))
    } else if s[0] == '\\' {
        if s.len() < 2 {
            None
        } else {
            let e = s[1];
            if e == '"' || e == '\\' || e == 'n' || e == 'r' || e == 't' {
                match spec_parse_string(s.skip(2)) {
                    Some((content, rem)) => Some((seq![unescape_short(e)] + content, rem)),
                    None => None,
                }
            } else if e == 'u' {
                if s.len() < 6 {
                    None
                } else if s[2] == '0' && s[3] == '0' && is_hex_lower(s[4]) && is_hex_lower(s[5]) {
                    let v = hex_val(s[4]) * 16 + hex_val(s[5]);
                    if v < 0x20 && v != 0x09 && v != 0x0A && v != 0x0D {
                        match spec_parse_string(s.skip(6)) {
                            Some((content, rem)) => Some(
                                (seq![((v as u32) as char)] + content, rem),
                            ),
                            None => None,
                        }
                    } else {
                        None
                    }
                } else {
                    None
                }
            } else {
                None
            }
        }
    } else if (s[0] as u32) < 0x20 {
        None
    } else {
        match spec_parse_string(s.drop_first()) {
            Some((content, rem)) => Some((seq![s[0]] + content, rem)),
            None => None,
        }
    }
}

/// The length of the maximal digit prefix of a sequence.
pub open spec fn digit_run(s: Seq<char>) -> int
    decreases s.len(),
{
    if s.len() > 0 && is_digit_char(s[0]) {
        1 + digit_run(s.drop_first())
    } else {
        0
    }
}

/// The digit run is a well-defined maximal prefix of digits.
pub proof fn lemma_digit_run(s: Seq<char>)
    ensures
        0 <= digit_run(s) <= s.len(),
        forall|m: int| 0 <= m < digit_run(s) ==> is_digit_char(#[trigger] s[m]),
        digit_run(s) < s.len() ==> !is_digit_char(s[digit_run(s)]),
    decreases s.len(),
{
    if s.len() > 0 && is_digit_char(s[0]) {
        lemma_digit_run(s.drop_first());
        let t = s.drop_first();
        assert(forall|m: int| 1 <= m < digit_run(s) ==> s[m] == t[m - 1]);
    }
}

/// Parses a canonical decimal number: a non-empty digit run without a
/// leading zero (unless it is exactly "0") whose value fits in a u64.
pub open spec fn spec_parse_u64(s: Seq<char>) -> Option<(u64, Seq<char>)> {
    let k = digit_run(s);
    if k == 0 {
        None
    } else if s[0] == '0' && k > 1 {
        None
    } else if digits_value(s.take(k)) > u64::MAX as int {
        None
    } else {
        Some((digits_value(s.take(k)) as u64, s.skip(k)))
    }
}

/// Drops `lit` from the front of `s`, if it stands there.
pub open spec fn spec_expect(s: Seq<char>, lit: Seq<char>) -> Option<Seq<char>> {
    if lit.len() <= s.len() && s.take(lit.len() as int) == lit {
        Some(s.skip(lit.len() as int))
    } else {
        None
    }
}

// ---------------------------------------------------------------------------
// Canonical-input round-trip lemmas
// ---------------------------------------------------------------------------
/// Dropping an expected literal from `lit + rest` gives `rest`.
pub proof fn lemma_expect_canonical(lit: Seq<char>, rest: Seq<char>)
    ensures
        spec_expect(lit + rest, lit) == Some(rest),
{
    assert((lit + rest).take(lit.len() as int) =~= lit);
    assert((lit + rest).skip(lit.len() as int) =~= rest);
}

/// Parsing the canonical escape of `content`, followed by the closing quote
/// and anything after it, gives back exactly `content` and the rest.
pub proof fn lemma_parse_string_canonical(content: Seq<char>, rest: Seq<char>)
    ensures
        spec_parse_string(escape_seq(content) + seq!['"'] + rest) == Some((content, rest)),
    decreases content.len(),
{
    let s = escape_seq(content) + seq!['"'] + rest;
    if content.len() == 0 {
        assert(escape_seq(content) =~= Seq::<char>::empty());
        assert(s =~= seq!['"'] + rest);
        assert(s[0] == '"');
        assert(s.drop_first() =~= rest);
    } else {
        let c0 = content[0];
        let tail = content.drop_first();
        assert(escape_seq(content) == escape_char(c0) + escape_seq(tail));
        let s2 = escape_seq(tail) + seq!['"'] + rest;
        assert(s =~= escape_char(c0) + s2);
        lemma_parse_string_canonical(tail, rest);
        let e = escape_char(c0);
        assert(forall|k: int| 0 <= k < e.len() ==> s[k] == e[k]);
        assert(s.len() == e.len() + s2.len());
        assert(s.skip(e.len() as int) =~= s2);
        if c0 == '"' || c0 == '\\' || c0 == '\n' || c0 == '\r' || c0 == '\t' {
            assert(e.len() == 2);
            assert(s[0] == '\\');
            assert(s.skip(2) =~= s2);
            assert(unescape_short(s[1]) == c0);
            assert(seq![c0] + tail =~= content);
        } else if (c0 as u32) < 0x20 {
            let v = (c0 as u32) as int;
            assert(e.len() == 6);
            assert(s[0] == '\\' && s[1] == 'u' && s[2] == '0' && s[3] == '0');
            assert(s[4] == hex_char(v / 16) && s[5] == hex_char(v % 16));
            lemma_hex_char(v / 16);
            lemma_hex_char(v % 16);
            assert(hex_val(s[4]) * 16 + hex_val(s[5]) == v);
            assert(v != 0x09 && v != 0x0A && v != 0x0D) by {
                vstd::utf8::char_u32_cast(c0, c0 as u32);
                assert((0x09 as u32) as char == '\t');
                assert((0x0A as u32) as char == '\n');
                assert((0x0D as u32) as char == '\r');
            }
            assert(s.skip(6) =~= s2);
            assert(((v as u32) as char) == c0) by {
                vstd::utf8::char_u32_cast(c0, c0 as u32);
            }
            assert(seq![c0] + tail =~= content);
        } else {
            assert(e.len() == 1);
            assert(s[0] == c0);
            assert(s.drop_first() =~= s2);
            assert(seq![c0] + tail =~= content);
        }
    }
}

/// A lowercase hex digit made by hex_char reads back as its value.
pub proof fn lemma_hex_char(d: int)
    requires
        0 <= d < 16,
    ensures
        is_hex_lower(hex_char(d)),
        hex_val(hex_char(d)) == d,
{
}

/// The value of a digit string is never negative.
pub proof fn lemma_digits_value_nonneg(ds: Seq<char>)
    ensures
        digits_value(ds) >= 0,
    decreases ds.len(),
{
    if ds.len() > 0 {
        lemma_digits_value_nonneg(ds.drop_last());
    }
}

/// The value of a prefix of a digit string is at most the whole value.
pub proof fn lemma_digits_value_take_le(ds: Seq<char>, m: int)
    requires
        0 <= m <= ds.len(),
    ensures
        digits_value(ds.take(m)) <= digits_value(ds),
    decreases ds.len() - m,
{
    if m < ds.len() {
        lemma_digits_value_take_le(ds, m + 1);
        assert(ds.take(m + 1).drop_last() =~= ds.take(m));
        lemma_digits_value_nonneg(ds.take(m));
        assert(digits_value(ds.take(m + 1)) == digits_value(ds.take(m)) * 10 + digit_val(
            ds.take(m + 1).last(),
        ));
        assert(digit_val(ds.take(m + 1).last()) >= 0);
        assert(digits_value(ds.take(m)) * 10 >= digits_value(ds.take(m))) by (nonlinear_arith)
            requires
                digits_value(ds.take(m)) >= 0,
        ;
    } else {
        assert(ds.take(m) =~= ds);
    }
}

/// The digit run of canonical digits followed by a non-digit is exactly the
/// digits.
pub proof fn lemma_digit_run_concat(ds: Seq<char>, rest: Seq<char>)
    requires
        forall|i: int| 0 <= i < ds.len() ==> is_digit_char(#[trigger] ds[i]),
        rest.len() == 0 || !is_digit_char(rest[0]),
    ensures
        digit_run(ds + rest) == ds.len(),
    decreases ds.len(),
{
    let s = ds + rest;
    if ds.len() == 0 {
        assert(s =~= rest);
    } else {
        assert(s[0] == ds[0]);
        assert(s.drop_first() =~= ds.drop_first() + rest);
        lemma_digit_run_concat(ds.drop_first(), rest);
    }
}

/// Parsing a canonically printed number followed by a non-digit gives back
/// exactly that number.
pub proof fn lemma_parse_u64_canonical(n: u64, rest: Seq<char>)
    requires
        rest.len() == 0 || !is_digit_char(rest[0]),
    ensures
        spec_parse_u64(dec_digits(n as nat) + rest) == Some((n, rest)),
{
    let ds = dec_digits(n as nat);
    let s = ds + rest;
    lemma_dec_digits_facts(n as nat);
    lemma_digit_run_concat(ds, rest);
    assert(digit_run(s) == ds.len());
    assert(s.take(ds.len() as int) =~= ds);
    assert(s.skip(ds.len() as int) =~= rest);
    if s[0] == '0' && digit_run(s) > 1 {
        assert(ds[0] == '0');
        assert(n < 10);
        assert(ds.len() == 1);
        assert(false);
    }
}

// ---------------------------------------------------------------------------
// Parsing primitives, executable
// ---------------------------------------------------------------------------
/// Parses a string body starting at `i`, mirroring spec_parse_string.
pub fn parse_string_at(cs: &Vec<char>, i: usize) -> (r: Option<(String, usize)>)
    requires
        i <= cs@.len(),
    ensures
        match r {
            None => spec_parse_string(cs@.skip(i as int)) is None,
            Some(p) => {
                &&& i < p.1 <= cs@.len()
                &&& spec_parse_string(cs@.skip(i as int)) == Some((p.0@, cs@.skip(p.1 as int)))
            },
        },
    decreases cs@.len() - i,
{
    let ghost s = cs@.skip(i as int);
    if i == cs.len() {
        None
    } else {
        let c = cs[i];
        proof {
            assert(s[0] == cs@[i as int]);
        }
        if c == '"' {
            proof {
                assert(s.drop_first() =~= cs@.skip(i + 1 as int));
            }
            Some((String::new(), i + 1))
        } else if c == '\\' {
            if cs.len() - i < 2 {
                None
            } else {
                let e = cs[i + 1];
                proof {
                    assert(s[1] == cs@[i + 1 as int]);
                    assert(s.skip(2) =~= cs@.skip(i + 2 as int));
                }
                if e == '"' || e == '\\' || e == 'n' || e == 'r' || e == 't' {
                    let c0 = if e == '"' {
                        '"'
                    } else if e == '\\' {
                        '\\'
                    } else if e == 'n' {
                        '\n'
                    } else if e == 'r' {
                        '\r'
                    } else {
                        '\t'
                    };
                    match parse_string_at(cs, i + 2) {
                        Some((out, j)) => {
                            let mut b = String::new();
                            b.push(c0);
                            b.append(out.as_str());
                            proof {
                                assert(b@ =~= seq![unescape_short(s[1])] + out@);
                            }
                            Some((b, j))
                        },
                        None => None,
                    }
                } else if e == 'u' {
                    if cs.len() - i < 6 {
                        None
                    } else {
                        proof {
                            assert(s[2] == cs@[i + 2 as int]);
                            assert(s[3] == cs@[i + 3 as int]);
                            assert(s[4] == cs@[i + 4 as int]);
                            assert(s[5] == cs@[i + 5 as int]);
                            assert(s.skip(6) =~= cs@.skip(i + 6 as int));
                        }
                        let h1 = cs[i + 4];
                        let h2 = cs[i + 5];
                        if cs[i + 2] == '0' && cs[i + 3] == '0' && is_hex_lower_exec(h1)
                            && is_hex_lower_exec(h2) {
                            let v: u32 = (hex_val_exec(h1) * 16 + hex_val_exec(h2)) as u32;
                            if v < 0x20 && v != 0x09 && v != 0x0A && v != 0x0D {
                                let c0 = (v as u8) as char;
                                proof {
                                    assert(c0 == ((v as u32) as char));
                                }
                                match parse_string_at(cs, i + 6) {
                                    Some((out, j)) => {
                                        let mut b = String::new();
                                        b.push(c0);
                                        b.append(out.as_str());
                                        proof {
                                            let vv = hex_val(s[4]) * 16 + hex_val(s[5]);
                                            assert(vv == v as int);
                                            assert(b@ =~= seq![((vv as u32) as char)] + out@);
                                        }
                                        Some((b, j))
                                    },
                                    None => None,
                                }
                            } else {
                                None
                            }
                        } else {
                            None
                        }
                    }
                } else {
                    None
                }
            }
        } else if (c as u32) < 0x20 {
            None
        } else {
            proof {
                assert(s.drop_first() =~= cs@.skip(i + 1 as int));
            }
            match parse_string_at(cs, i + 1) {
                Some((out, j)) => {
                    let mut b = String::new();
                    b.push(c);
                    b.append(out.as_str());
                    proof {
                        assert(b@ =~= seq![s[0]] + out@);
                    }
                    Some((b, j))
                },
                None => None,
            }
        }
    }
}

/// Exec counterpart of is_hex_lower.
fn is_hex_lower_exec(c: char) -> (r: bool)
    ensures
        r == is_hex_lower(c),
{
    c == '0' || c == '1' || c == '2' || c == '3' || c == '4' || c == '5' || c == '6' || c == '7'
        || c == '8' || c == '9' || c == 'a' || c == 'b' || c == 'c' || c == 'd' || c == 'e' || c
        == 'f'
}

/// Exec counterpart of hex_val.
fn hex_val_exec(c: char) -> (r: u8)
    requires
        is_hex_lower(c),
    ensures
        r as int == hex_val(c),
{
    if c == '0' {
        0
    } else if c == '1' {
        1
    } else if c == '2' {
        2
    } else if c == '3' {
        3
    } else if c == '4' {
        4
    } else if c == '5' {
        5
    } else if c == '6' {
        6
    } else if c == '7' {
        7
    } else if c == '8' {
        8
    } else if c == '9' {
        9
    } else if c == 'a' {
        10
    } else if c == 'b' {
        11
    } else if c == 'c' {
        12
    } else if c == 'd' {
        13
    } else if c == 'e' {
        14
    } else {
        15
    }
}

/// Exec counterpart of is_digit_char.
pub fn is_digit(c: char) -> (r: bool)
    ensures
        r == is_digit_char(c),
{
    c == '0' || c == '1' || c == '2' || c == '3' || c == '4' || c == '5' || c == '6' || c == '7'
        || c == '8' || c == '9'
}

/// Exec counterpart of digit_val.
pub fn digit_val_exec(c: char) -> (r: u64)
    requires
        is_digit_char(c),
    ensures
        r as int == digit_val(c),
{
    if c == '0' {
        0
    } else if c == '1' {
        1
    } else if c == '2' {
        2
    } else if c == '3' {
        3
    } else if c == '4' {
        4
    } else if c == '5' {
        5
    } else if c == '6' {
        6
    } else if c == '7' {
        7
    } else if c == '8' {
        8
    } else {
        9
    }
}

/// Parses a canonical number starting at `i`, mirroring spec_parse_u64.
pub fn parse_u64_at(cs: &Vec<char>, i: usize) -> (r: Option<(u64, usize)>)
    requires
        i <= cs@.len(),
    ensures
        match r {
            None => spec_parse_u64(cs@.skip(i as int)) is None,
            Some(p) => {
                &&& i < p.1 <= cs@.len()
                &&& spec_parse_u64(cs@.skip(i as int)) == Some((p.0, cs@.skip(p.1 as int)))
            },
        },
{
    let ghost s = cs@.skip(i as int);
    let ghost run = digit_run(s);
    proof {
        lemma_digit_run(s);
    }
    if i == cs.len() || !is_digit(cs[i]) {
        proof {
            if i < cs@.len() {
                assert(s[0] == cs@[i as int]);
            }
            assert(run == 0);
        }
        return None;
    }
    proof {
        assert(s[0] == cs@[i as int]);
        assert(run >= 1);
    }
    let d0 = digit_val_exec(cs[i]);
    if d0 == 0 {
        // A canonical zero is a single digit.
        if i + 1 < cs.len() && is_digit(cs[i + 1]) {
            proof {
                assert(s[1] == cs@[i + 1 as int]);
                assert(digit_run(s.drop_first()) >= 1);
                assert(run > 1);
            }
            return None;
        }
        proof {
            if run > 1 {
                assert(is_digit_char(s[1]));
                assert(s[1] == cs@[i + 1 as int]);
            }
            assert(run == 1);
            assert(s.take(1) =~= seq![s[0]]);
            assert(s.take(1).len() == 1);
            assert(s.take(1).drop_last() =~= Seq::<char>::empty());
            assert(s.take(1).last() == s[0]);
            assert(digit_val(s[0]) == 0);
            assert(digits_value(s.take(1)) == digits_value(s.take(1).drop_last()) * 10 + digit_val(
                s.take(1).last(),
            ));
            assert(digits_value(s.take(1)) == 0);
            assert(s.skip(1) =~= cs@.skip(i + 1 as int));
        }
        return Some((0, i + 1));
    }
    let mut v: u64 = d0;
    let mut k: usize = i + 1;
    let ghost m: int = 1;
    proof {
        assert(s.take(1) =~= seq![s[0]]);
        assert(s.take(1).len() == 1);
        assert(s.take(1).drop_last() =~= Seq::<char>::empty());
        assert(s.take(1).last() == s[0]);
        assert(digits_value(s.take(1)) == digits_value(s.take(1).drop_last()) * 10 + digit_val(
            s.take(1).last(),
        ));
        assert(v as int == digits_value(s.take(1)));
    }
    loop
        invariant
            i <= cs@.len(),
            s == cs@.skip(i as int),
            run == digit_run(s),
            0 <= run <= s.len(),
            forall|q: int| 0 <= q < run ==> is_digit_char(#[trigger] s[q]),
            run < s.len() ==> !is_digit_char(s[run]),
            1 <= m <= run,
            k == i + m,
            k <= cs@.len(),
            v as int == digits_value(s.take(m)),
            s[0] != '0',
        decreases cs@.len() - k,
    {
        if k == cs.len() || !is_digit(cs[k]) {
            proof {
                if m < run {
                    assert(is_digit_char(s[m]));
                    assert(s[m] == cs@[k as int]);
                    assert(false);
                }
                assert(m == run);
                assert(s.skip(m) =~= cs@.skip(k as int));
                lemma_digits_value_nonneg(s.take(m));
            }
            return Some((v, k));
        }
        let d = digit_val_exec(cs[k]);
        proof {
            assert(s[m] == cs@[k as int]);
            if m == run {
                assert(!is_digit_char(s[run]));
                assert(false);
            }
            assert(s.take(m + 1).drop_last() =~= s.take(m));
            assert(s.take(m + 1).last() == s[m]);
            assert(digits_value(s.take(m + 1)) == digits_value(s.take(m)) * 10 + digit_val(s[m]));
        }
        if v > (u64::MAX - d) / 10 {
            proof {
                lemma_digits_value_nonneg(s.take(m));
                assert(digits_value(s.take(m + 1)) > u64::MAX as int) by (nonlinear_arith)
                    requires
                        digits_value(s.take(m + 1)) == digits_value(s.take(m)) * 10 + digit_val(
                            s[m],
                        ),
                        digits_value(s.take(m)) == v as int,
                        digit_val(s[m]) == d as int,
                        v > (u64::MAX - d) / 10,
                        d < 10,
                        v >= 0,
                ;
                lemma_digits_value_take_le(s.take(run), m + 1);
                assert(s.take(run).take(m + 1) =~= s.take(m + 1));
                assert(digits_value(s.take(run)) > u64::MAX as int);
            }
            return None;
        }
        proof {
            assert(v * 10 + d <= u64::MAX) by (nonlinear_arith)
                requires
                    v <= (u64::MAX - d) / 10,
                    0 <= d < 10,
                    0 <= v,
            ;
        }
        v = v * 10 + d;
        k = k + 1;
        proof {
            m = m + 1;
        }
    }
}

/// Checks for the literal `lit` at position `i`, mirroring spec_expect.
pub fn expect_lit(cs: &Vec<char>, i: usize, lit: &str) -> (r: Option<usize>)
    requires
        i <= cs@.len(),
    ensures
        match r {
            None => spec_expect(cs@.skip(i as int), lit@) is None,
            Some(j) => {
                &&& i <= j <= cs@.len()
                &&& j - i == lit@.len()
                &&& spec_expect(cs@.skip(i as int), lit@) == Some(cs@.skip(j as int))
            },
        },
{
    let ghost s = cs@.skip(i as int);
    let n = lit.unicode_len();
    if cs.len() - i < n {
        return None;
    }
    let mut k: usize = 0;
    while k < n
        invariant
            i <= cs@.len(),
            cs@.len() <= usize::MAX,
            s == cs@.skip(i as int),
            n == lit@.len(),
            i + n <= cs@.len(),
            k <= n,
            forall|q: int| 0 <= q < k ==> s[q] == lit@[q],
        decreases n - k,
    {
        let c = cs[i + k];
        let l = lit.get_char(k);
        proof {
            assert(s[k as int] == cs@[i + k as int]);
        }
        if c != l {
            proof {
                assert(s.take(n as int)[k as int] == s[k as int]);
                assert(s.take(n as int) != lit@);
            }
            return None;
        }
        k = k + 1;
    }
    proof {
        assert(s.take(n as int) =~= lit@);
        assert(s.skip(n as int) =~= cs@.skip(i + n as int));
    }
    Some(i + n)
}

// ---------------------------------------------------------------------------
// Whole records
// ---------------------------------------------------------------------------
/// The opening of a text record, up to the content string.
pub open spec fn text_prefix() -> Seq<char> {
    "{\"content_type\":\"Text\",\"content\":\""@
}

/// The opening of an image record, up to the content string.
pub open spec fn image_prefix() -> Seq<char> {
    "{\"content_type\":\"Image\",\"content\":\""@
}

/// The separator between the content string and the timestamp field.
pub open spec fn ts_sep() -> Seq<char> {
    ",\"timestamp\":"@
}

/// The separator opening the image_info object.
pub open spec fn info_sep() -> Seq<char> {
    ",\"image_info\":{\"width\":"@
}

/// The separator before the height field.
pub open spec fn height_sep() -> Seq<char> {
    ",\"height\":"@
}

/// The separator before the size_bytes field.
pub open spec fn size_sep() -> Seq<char> {
    ",\"size_bytes\":"@
}

/// The canonical line for a text record.
pub open spec fn encode_text(content: Seq<char>, ts: i64) -> Seq<char> {
    text_prefix() + escape_seq(content) + seq!['"'] + ts_sep() + dec_digits(ts as nat) + "}"@
}

/// The canonical line for an image record.
pub open spec fn encode_image(name: Seq<char>, ts: i64, info: ImageInfo) -> Seq<char> {
    image_prefix() + escape_seq(name) + seq!['"'] + ts_sep() + dec_digits(ts as nat) + info_sep()
        + dec_digits(info.width as nat) + height_sep() + dec_digits(info.height as nat)
        + size_sep() + dec_digits(info.size_bytes as nat) + "}}"@
}

/// The canonical line for an entry.
pub open spec fn spec_encode_entry(e: AbsEntry) -> Seq<char> {
    if e.content_type is Text {
        encode_text(e.content, e.timestamp)
    } else {
        match e.image_info {
            Some(info) => encode_image(e.content, e.timestamp, info),
            None => Seq::empty(),
        }
    }
}

/// Parses one line as a record, with the derived hash recomputed from what
/// the line holds. Anything non-canonical is rejected.
pub open spec fn spec_parse_entry(s: Seq<char>) -> Option<AbsEntry> {
    match spec_expect(s, text_prefix()) {
        Some(r1) => match spec_parse_string(r1) {
            Some((content, r2)) => match spec_expect(r2, ts_sep()) {
                Some(r3) => match spec_parse_u64(r3) {
                    Some((t, r4)) => if t <= i64::MAX as u64 && r4 == "}"@ {
                        Some(
                            AbsEntry {
                                content_type: ClipboardContentType::Text,
                                content,
                                timestamp: t as i64,
                                image_info: None,
                                content_hash: text_hash(content),
                            },
                        )
                    } else {
                        None
                    },
                    None => None,
                },
                None => None,
            },
            None => None,
        },
        None => match spec_expect(s, image_prefix()) {
            Some(r1) => spec_parse_image_tail(r1),
            None => None,
        },
    }
}

/// Parses the part of an image record that follows its opening literal.
pub open spec fn spec_parse_image_tail(s: Seq<char>) -> Option<AbsEntry> {
    match spec_parse_string(s) {
        Some((name, r2)) => match spec_expect(r2, ts_sep()) {
            Some(r3) => match spec_parse_u64(r3) {
                Some((t, r4)) => match spec_expect(r4, info_sep()) {
                    Some(r5) => match spec_parse_u64(r5) {
                        Some((w, r6)) => match spec_expect(r6, height_sep()) {
                            Some(r7) => match spec_parse_u64(r7) {
                                Some((h, r8)) => match spec_expect(r8, size_sep()) {
                                    Some(r9) => match spec_parse_u64(r9) {
                                        Some((sz, r10)) => if t <= i64::MAX as u64 && w <= u32::MAX
                                            as u64 && h <= u32::MAX as u64 && r10 == "}}"@ {
                                            Some(
                                                AbsEntry {
                                                    content_type: ClipboardContentType::Image,
                                                    content: name,
                                                    timestamp: t as i64,
                                                    image_info: Some(
                                                        ImageInfo {
                                                            width: w as u32,
                                                            height: h as u32,
                                                            size_bytes: sz,
                                                        },
                                                    ),
                                                    content_hash: image_meta_hash(name, t as i64),
                                                },
                                            )
                                        } else {
                                            None
                                        },
                                        None => None,
                                    },
                                    None => None,
                                },
                                None => None,
                            },
                            None => None,
                        },
                        None => None,
                    },
                    None => None,
                },
                None => None,
            },
            None => None,
        },
        None => None,
    }
}

/// Encodes an entry as its canonical line.
pub fn encode_entry(e: &ClipboardEntry) -> (r: String)
    requires
        wf_abs(e@),
    ensures
        r@ == spec_encode_entry(e@),
{
    match e.content_type {
        ClipboardContentType::Text => {
            let mut out = String::from_str("{\"content_type\":\"Text\",\"content\":\"");
            let cs = crate::text::str_to_chars(e.content.as_str());
            append_escaped(&mut out, &cs);
            out.push('"');
            out.append(",\"timestamp\":");
            let ts = crate::text::u64_to_string(e.timestamp as u64);
            out.append(ts.as_str());
            out.append("}");
            proof {
                assert(out@ =~= encode_text(e@.content, e@.timestamp));
            }
            out
        },
        ClipboardContentType::Image => {
            match &e.image_info {
                Some(info) => {
                    let mut out = String::from_str("{\"content_type\":\"Image\",\"content\":\"");
                    let cs = crate::text::str_to_chars(e.content.as_str());
                    append_escaped(&mut out, &cs);
                    out.push('"');
                    out.append(",\"timestamp\":");
                    let ts = crate::text::u64_to_string(e.timestamp as u64);
                    out.append(ts.as_str());
                    out.append(",\"image_info\":{\"width\":");
                    let w = crate::text::u64_to_string(info.width as u64);
                    out.append(w.as_str());
                    out.append(",\"height\":");
                    let h = crate::text::u64_to_string(info.height as u64);
                    out.append(h.as_str());
                    out.append(",\"size_bytes\":");
                    let sz = crate::text::u64_to_string(info.size_bytes);
                    out.append(sz.as_str());
                    out.append("}}");
                    proof {
                        assert(out@ =~= encode_image(e@.content, e@.timestamp, *info));
                    }
                    out
                },
                None => {
                    proof {
                        assert(false);
                    }
                    String::new()
                },
            }
        },
    }
}

/// Parses one line as a record, mirroring spec_parse_entry.
pub fn parse_entry(cs: &Vec<char>) -> (r: Option<ClipboardEntry>)
    ensures
        match r {
            None => spec_parse_entry(cs@) is None,
            Some(e) => spec_parse_entry(cs@) == Some(e@) && wf_abs(e@),
        },
{
    proof {
        assert(cs@.skip(0) =~= cs@);
    }
    match expect_lit(cs, 0, "{\"content_type\":\"Text\",\"content\":\"") {
        Some(j1) => {
            match parse_string_at(cs, j1) {
                Some((content, j2)) => {
                    match expect_lit(cs, j2, ",\"timestamp\":") {
                        Some(j3) => {
                            match parse_u64_at(cs, j3) {
                                Some((t, j4)) => {
                                    let ghost r4 = cs@.skip(j4 as int);
                                    match expect_lit(cs, j4, "}") {
                                        Some(j5) => {
                                            if j5 == cs.len() && t <= i64::MAX as u64 {
                                                proof {
                                                    assert(r4 =~= r4.take("}"@.len() as int)
                                                        + r4.skip("}"@.len() as int));
                                                    assert(r4 == "}"@);
                                                }
                                                let content_hash = crate::hashing::hash_str(
                                                    content.as_str(),
                                                );
                                                Some(
                                                    ClipboardEntry {
                                                        content_type: ClipboardContentType::Text,
                                                        content,
                                                        timestamp: t as i64,
                                                        image_info: None,
                                                        content_hash,
                                                    },
                                                )
                                            } else {
                                                proof {
                                                    if t <= i64::MAX as u64 {
                                                        assert(r4.skip("}"@.len() as int).len()
                                                            > 0);
                                                        assert(r4 != "}"@);
                                                    }
                                                }
                                                None
                                            }
                                        },
                                        None => {
                                            proof {
                                                if r4 == "}"@ {
                                                    lemma_expect_canonical(
                                                        "}"@,
                                                        Seq::<char>::empty(),
                                                    );
                                                    assert("}"@ + Seq::<char>::empty() =~= r4);
                                                }
                                            }
                                            None
                                        },
                                    }
                                },
                                None => None,
                            }
                        },
                        None => None,
                    }
                },
                None => None,
            }
        },
        None => {
            match expect_lit(cs, 0, "{\"content_type\":\"Image\",\"content\":\"") {
                Some(j1) => parse_image_tail(cs, j1),
                None => None,
            }
        },
    }
}

/// Parses the remainder of an image record, after its opening literal.
fn parse_image_tail(cs: &Vec<char>, j1: usize) -> (r: Option<ClipboardEntry>)
    requires
        j1 <= cs@.len(),
    ensures
        match r {
            None => spec_parse_image_tail(cs@.skip(j1 as int)) is None,
            Some(e) => spec_parse_image_tail(cs@.skip(j1 as int)) == Some(e@) && wf_abs(e@),
        },
{
    let p1 = parse_string_at(cs, j1);
    if p1.is_none() {
        return None;
    }
    let (name, j2) = p1.unwrap();
    let p2 = expect_lit(cs, j2, ",\"timestamp\":");
    if p2.is_none() {
        return None;
    }
    let j3 = p2.unwrap();
    let p3 = parse_u64_at(cs, j3);
    if p3.is_none() {
        return None;
    }
    let (t, j4) = p3.unwrap();
    let p4 = expect_lit(cs, j4, ",\"image_info\":{\"width\":");
    if p4.is_none() {
        return None;
    }
    let j5 = p4.unwrap();
    let p5 = parse_u64_at(cs, j5);
    if p5.is_none() {
        return None;
    }
    let (w, j6) = p5.unwrap();
    let p6 = expect_lit(cs, j6, ",\"height\":");
    if p6.is_none() {
        return None;
    }
    let j7 = p6.unwrap();
    let p7 = parse_u64_at(cs, j7);
    if p7.is_none() {
        return None;
    }
    let (h, j8) = p7.unwrap();
    let p8 = expect_lit(cs, j8, ",\"size_bytes\":");
    if p8.is_none() {
        return None;
    }
    let j9 = p8.unwrap();
    let p9 = parse_u64_at(cs, j9);
    if p9.is_none() {
        return None;
    }
    let (sz, j10) = p9.unwrap();
    let ghost r10 = cs@.skip(j10 as int);
    match expect_lit(cs, j10, "}}") {
        Some(j11) => {
            if j11 == cs.len() && t <= i64::MAX as u64 && w <= u32::MAX as u64 && h <= u32::MAX
                as u64 {
                proof {
                    assert(r10 =~= r10.take("}}"@.len() as int) + r10.skip("}}"@.len() as int));
                    assert(r10 == "}}"@);
                }
                let hs = crate::hashing::hash_str(name.as_str());
                let content_hash = crate::hashing::fnv_fold(
                    hs,
                    #[verifier::truncate] ((t as i64) as u64),
                );
                Some(
                    ClipboardEntry {
                        content_type: ClipboardContentType::Image,
                        content: name,
                        timestamp: t as i64,
                        image_info: Some(
                            ImageInfo { width: w as u32, height: h as u32, size_bytes: sz },
                        ),
                        content_hash,
                    },
                )
            } else {
                proof {
                    if t <= i64::MAX as u64 && w <= u32::MAX as u64 && h <= u32::MAX as u64 {
                        assert(r10.skip("}}"@.len() as int).len() > 0);
                        assert(r10 != "}}"@);
                    }
                }
                None
            }
        },
        None => {
            proof {
                if r10 == "}}"@ {
                    lemma_expect_canonical("}}"@, Seq::<char>::empty());
                    assert("}}"@ + Seq::<char>::empty() =~= r10);
                }
            }
            None
        },
    }
}

// ---------------------------------------------------------------------------
// Round trip for whole records
// ---------------------------------------------------------------------------
/// Parsing the canonical line of a text record gives back its fields.
pub proof fn lemma_parse_encode_text(content: Seq<char>, ts: i64)
    requires
        0 <= ts,
    ensures
        spec_parse_entry(encode_text(content, ts)) == Some(
            AbsEntry {
                content_type: ClipboardContentType::Text,
                content,
                timestamp: ts,
                image_info: None,
                content_hash: text_hash(content),
            },
        ),
{
    let s = encode_text(content, ts);
    let dec = dec_digits(ts as nat);
    let rest1 = escape_seq(content) + seq!['"'] + ts_sep() + dec + "}"@;
    assert(s =~= text_prefix() + rest1);
    lemma_expect_canonical(text_prefix(), rest1);
    let rest2 = ts_sep() + dec + "}"@;
    assert(rest1 =~= escape_seq(content) + seq!['"'] + rest2);
    lemma_parse_string_canonical(content, rest2);
    let rest3 = dec + "}"@;
    assert(rest2 =~= ts_sep() + rest3);
    lemma_expect_canonical(ts_sep(), rest3);
    reveal_strlit("}");
    assert("}"@[0] == '}');
    assert(!is_digit_char("}"@[0]));
    assert((ts as u64) as nat == ts as nat);
    lemma_parse_u64_canonical(ts as u64, "}"@);
    assert((ts as u64) as i64 == ts);
}

/// Parsing the canonical line of an image record gives back its fields, with
/// the hash derived from the filename and timestamp.
pub proof fn lemma_parse_encode_image(name: Seq<char>, ts: i64, info: ImageInfo)
    requires
        0 <= ts,
    ensures
        spec_parse_entry(encode_image(name, ts, info)) == Some(
            AbsEntry {
                content_type: ClipboardContentType::Image,
                content: name,
                timestamp: ts,
                image_info: Some(info),
                content_hash: image_meta_hash(name, ts),
            },
        ),
{
    let s = encode_image(name, ts, info);
    let dec_t = dec_digits(ts as nat);
    let dec_w = dec_digits(info.width as nat);
    let dec_h = dec_digits(info.height as nat);
    let dec_sz = dec_digits(info.size_bytes as nat);
    reveal_strlit("{\"content_type\":\"Text\",\"content\":\"");
    reveal_strlit("{\"content_type\":\"Image\",\"content\":\"");
    // The text opening does not match an image line: the kind names differ.
    assert(spec_expect(s, text_prefix()) is None) by {
        if spec_expect(s, text_prefix()) is Some {
            assert(s.take(text_prefix().len() as int) == text_prefix());
            assert(s.take(text_prefix().len() as int)[17] == text_prefix()[17]);
            assert(s[17] == image_prefix()[17]);
            assert(text_prefix()[17] == 'T');
            assert(image_prefix()[17] == 'I');
            assert(false);
        }
    }
    let rest1 = escape_seq(name) + seq!['"'] + ts_sep() + dec_t + info_sep() + dec_w + height_sep()
        + dec_h + size_sep() + dec_sz + "}}"@;
    assert(s =~= image_prefix() + rest1);
    lemma_expect_canonical(image_prefix(), rest1);
    lemma_parse_image_tail_canonical(name, ts, info);
}

/// Parsing the canonical tail of an image record gives back its fields.
#[verifier::rlimit(100)]
#[verifier::spinoff_prover]
pub proof fn lemma_parse_image_tail_canonical(name: Seq<char>, ts: i64, info: ImageInfo)
    requires
        0 <= ts,
    ensures
        spec_parse_image_tail(
            escape_seq(name) + seq!['"'] + ts_sep() + dec_digits(ts as nat) + info_sep()
                + dec_digits(info.width as nat) + height_sep() + dec_digits(info.height as nat)
                + size_sep() + dec_digits(info.size_bytes as nat) + "}}"@,
        ) == Some(
            AbsEntry {
                content_type: ClipboardContentType::Image,
                content: name,
                timestamp: ts,
                image_info: Some(info),
                content_hash: image_meta_hash(name, ts),
            },
        ),
{
    let dec_t = dec_digits(ts as nat);
    let dec_w = dec_digits(info.width as nat);
    let dec_h = dec_digits(info.height as nat);
    let dec_sz = dec_digits(info.size_bytes as nat);
    reveal_strlit(",\"image_info\":{\"width\":");
    reveal_strlit(",\"height\":");
    reveal_strlit(",\"size_bytes\":");
    reveal_strlit("}}");
    let rest1 = escape_seq(name) + seq!['"'] + ts_sep() + dec_t + info_sep() + dec_w + height_sep()
        + dec_h + size_sep() + dec_sz + "}}"@;
    let rest2 = ts_sep() + dec_t + info_sep() + dec_w + height_sep() + dec_h + size_sep() + dec_sz
        + "}}"@;
    assert(rest1 =~= escape_seq(name) + seq!['"'] + rest2);
    lemma_parse_string_canonical(name, rest2);
    let rest3 = dec_t + info_sep() + dec_w + height_sep() + dec_h + size_sep() + dec_sz + "}}"@;
    assert(rest2 =~= ts_sep() + rest3);
    lemma_expect_canonical(ts_sep(), rest3);
    let rest4 = info_sep() + dec_w + height_sep() + dec_h + size_sep() + dec_sz + "}}"@;
    assert(rest3 =~= dec_t + rest4);
    assert(rest4[0] == info_sep()[0]);
    assert(!is_digit_char(rest4[0]));
    assert((ts as u64) as nat == ts as nat);
    lemma_parse_u64_canonical(ts as u64, rest4);
    let rest5 = dec_w + height_sep() + dec_h + size_sep() + dec_sz + "}}"@;
    assert(rest4 =~= info_sep() + rest5);
    lemma_expect_canonical(info_sep(), rest5);
    let rest6 = height_sep() + dec_h + size_sep() + dec_sz + "}}"@;
    assert(rest5 =~= dec_w + rest6);
    assert(rest6[0] == height_sep()[0]);
    assert(!is_digit_char(rest6[0]));
    lemma_parse_u64_canonical(info.width as u64, rest6);
    let rest7 = dec_h + size_sep() + dec_sz + "}}"@;
    assert(rest6 =~= height_sep() + rest7);
    lemma_expect_canonical(height_sep(), rest7);
    let rest8 = size_sep() + dec_sz + "}}"@;
    assert(rest7 =~= dec_h + rest8);
    assert(rest8[0] == size_sep()[0]);
    assert(!is_digit_char(rest8[0]));
    lemma_parse_u64_canonical(info.height as u64, rest8);
    let rest9 = dec_sz + "}}"@;
    assert(rest8 =~= size_sep() + rest9);
    lemma_expect_canonical(size_sep(), rest9);
    assert(rest9 =~= dec_sz + "}}"@);
    assert("}}"@[0] == '}');
    assert(!is_digit_char("}}"@[0]));
    lemma_parse_u64_canonical(info.size_bytes, "}}"@);
    assert((ts as u64) as i64 == ts);
    assert((info.width as u64) as u32 == info.width);
    assert((info.height as u64) as u32 == info.height);
}

/// Parsing the canonical line of any well-formed entry gives back the entry,
/// with the hash recomputed as a load does.
pub proof fn lemma_parse_encode_entry(e: AbsEntry)
    requires
        wf_abs(e),
    ensures
        spec_parse_entry(spec_encode_entry(e)) == Some(
            AbsEntry { content_hash: crate::entry::recomputed_hash(e), ..e },
        ),
{
    if e.content_type is Text {
        lemma_parse_encode_text(e.content, e.timestamp);
    } else {
        lemma_parse_encode_image(e.content, e.timestamp, e.image_info->0);
    }
}

// ---------------------------------------------------------------------------
// Newlines and line splitting
// ---------------------------------------------------------------------------
/// Whether the first `n` characters are all different from newline.
pub open spec fn no_newline_upto(s: Seq<char>, n: int) -> bool
    decreases n,
{
    if n <= 0 {
        true
    } else {
        s[n - 1] != '\n' && no_newline_upto(s, n - 1)
    }
}

/// A sequence contains no newline.
pub open spec fn no_newline(s: Seq<char>) -> bool {
    forall|i: int| 0 <= i < s.len() ==> s[i] != '\n'
}

/// The bounded check implies the quantified statement.
pub proof fn lemma_no_newline_upto(s: Seq<char>, n: int)
    requires
        no_newline_upto(s, n),
        n == s.len(),
    ensures
        no_newline(s),
    decreases n,
{
    if n > 0 {
        assert(no_newline_upto(s.drop_last(), n - 1)) by {
            lemma_no_newline_upto_frame(s, n - 1);
        }
        lemma_no_newline_upto(s.drop_last(), n - 1);
        assert(forall|i: int| 0 <= i < n - 1 ==> s[i] == s.drop_last()[i]);
    }
}

/// The bounded check only looks at the first `n` characters.
pub proof fn lemma_no_newline_upto_frame(s: Seq<char>, n: int)
    requires
        no_newline_upto(s, n),
        n <= s.len() - 1,
    ensures
        no_newline_upto(s.drop_last(), n),
    decreases n,
{
    if n > 0 {
        lemma_no_newline_upto_frame(s, n - 1);
        assert(s.drop_last()[n - 1] == s[n - 1]);
    }
}

/// The canonical line of a well-formed entry contains no newline.
pub proof fn lemma_encode_entry_no_newline(e: AbsEntry)
    requires
        wf_abs(e),
    ensures
        no_newline(spec_encode_entry(e)),
{
    reveal_strlit("{\"content_type\":\"Text\",\"content\":\"");
    reveal_strlit("{\"content_type\":\"Image\",\"content\":\"");
    reveal_strlit(",\"timestamp\":");
    reveal_strlit(",\"image_info\":{\"width\":");
    reveal_strlit(",\"height\":");
    reveal_strlit(",\"size_bytes\":");
    reveal_strlit("}");
    reveal_strlit("}}");
    reveal_with_fuel(no_newline_upto, 40);
    assert(no_newline_upto(text_prefix(), text_prefix().len() as int));
    lemma_no_newline_upto(text_prefix(), text_prefix().len() as int);
    assert(no_newline_upto(image_prefix(), image_prefix().len() as int));
    lemma_no_newline_upto(image_prefix(), image_prefix().len() as int);
    assert(no_newline_upto(ts_sep(), ts_sep().len() as int));
    lemma_no_newline_upto(ts_sep(), ts_sep().len() as int);
    assert(no_newline_upto(info_sep(), info_sep().len() as int));
    lemma_no_newline_upto(info_sep(), info_sep().len() as int);
    assert(no_newline_upto(height_sep(), height_sep().len() as int));
    lemma_no_newline_upto(height_sep(), height_sep().len() as int);
    assert(no_newline_upto(size_sep(), size_sep().len() as int));
    lemma_no_newline_upto(size_sep(), size_sep().len() as int);
    assert(no_newline_upto("}"@, "}"@.len() as int));
    lemma_no_newline_upto("}"@, "}"@.len() as int);
    assert(no_newline_upto("}}"@, "}}"@.len() as int));
    lemma_no_newline_upto("}}"@, "}}"@.len() as int);
    lemma_escape_seq_no_newline(e.content);
    if e.content_type is Text {
        lemma_dec_digits_no_newline(e.timestamp as nat);
    } else {
        lemma_dec_digits_no_newline(e.timestamp as nat);
        let info = e.image_info->0;
        lemma_dec_digits_no_newline(info.width as nat);
        lemma_dec_digits_no_newline(info.height as nat);
        lemma_dec_digits_no_newline(info.size_bytes as nat);
    }
}

/// A canonical digit string contains no newline.
pub proof fn lemma_dec_digits_no_newline(n: nat)
    ensures
        no_newline(dec_digits(n)),
{
    lemma_dec_digits_facts(n);
    assert forall|i: int| 0 <= i < dec_digits(n).len() implies dec_digits(n)[i] != '\n' by {
        assert(is_digit_char(dec_digits(n)[i]));
    }
}

/// Splits a sequence at newlines. A sequence with n newlines yields n + 1
/// segments, none holding a newline.
pub open spec fn spec_split(s: Seq<char>) -> Seq<Seq<char>>
    decreases s.len(),
{
    if s.len() == 0 {
        seq![Seq::<char>::empty()]
    } else if s[0] == '\n' {
        seq![Seq::<char>::empty()] + spec_split(s.drop_first())
    } else {
        let rest = spec_split(s.drop_first());
        seq![seq![s[0]] + rest[0]] + rest.drop_first()
    }
}

/// Splitting always yields at least one segment.
pub proof fn lemma_spec_split_len(s: Seq<char>)
    ensures
        spec_split(s).len() >= 1,
    decreases s.len(),
{
    if s.len() > 0 {
        lemma_spec_split_len(s.drop_first());
    }
}

/// Splitting a line, a newline and a rest yields the line and then the split
/// of the rest.
pub proof fn lemma_split_line(line: Seq<char>, rest: Seq<char>)
    requires
        no_newline(line),
    ensures
        spec_split(line + seq!['\n'] + rest) == seq![line] + spec_split(rest),
    decreases line.len(),
{
    let s = line + seq!['\n'] + rest;
    if line.len() == 0 {
        assert(s =~= seq!['\n'] + rest);
        assert(s[0] == '\n');
        assert(s.drop_first() =~= rest);
        assert(seq![Seq::<char>::empty()] + spec_split(rest) =~~= seq![line] + spec_split(rest));
    } else {
        assert(s[0] == line[0]);
        assert(s.drop_first() =~= line.drop_first() + seq!['\n'] + rest);
        assert(forall|i: int| 0 <= i < line.drop_first().len() ==> line.drop_first()[i] == line[
            i + 1
        ]);
        lemma_split_line(line.drop_first(), rest);
        lemma_spec_split_len(rest);
        let inner = spec_split(s.drop_first());
        assert(inner == seq![line.drop_first()] + spec_split(rest));
        assert(inner[0] == line.drop_first());
        assert(inner.drop_first() =~~= spec_split(rest));
        assert(seq![s[0]] + inner[0] =~= line);
        assert(spec_split(s) =~~= seq![line] + spec_split(rest));
    }
}

/// Splits a character vector at newlines, mirroring spec_split.
pub fn split_segments(cs: &Vec<char>) -> (r: Vec<Vec<char>>)
    ensures
        r@.map_values(|v: Vec<char>| v@) == spec_split(cs@),
{
    let mut r: Vec<Vec<char>> = Vec::new();
    let mut cur: Vec<char> = Vec::new();
    let mut i: usize = 0;
    proof {
        lemma_spec_split_len(cs@);
        assert(cs@.skip(0) =~= cs@);
    }
    while i < cs.len()
        invariant
            i <= cs@.len(),
            spec_split(cs@.skip(i as int)).len() >= 1,
            spec_split(cs@) == r@.map_values(|v: Vec<char>| v@) + seq![cur@ + spec_split(
                cs@.skip(i as int),
            )[0]] + spec_split(cs@.skip(i as int)).drop_first(),
        decreases cs@.len() - i,
    {
        let ghost f = |v: Vec<char>| v@;
        let ghost pre = spec_split(cs@.skip(i as int));
        let ghost nxt = spec_split(cs@.skip(i + 1 as int));
        proof {
            assert(cs@.skip(i as int)[0] == cs@[i as int]);
            assert(cs@.skip(i as int).drop_first() =~= cs@.skip(i + 1 as int));
            lemma_spec_split_len(cs@.skip(i + 1 as int));
        }
        let c = cs[i];
        if c == '\n' {
            proof {
                assert(pre == seq![Seq::<char>::empty()] + nxt);
                assert(pre[0] == Seq::<char>::empty());
                assert(cur@ + pre[0] =~= cur@);
                assert(pre.drop_first() =~= nxt);
            }
            let ghost r0 = r@;
            let ghost cur0 = cur@;
            r.push(cur);
            cur = Vec::new();
            proof {
                assert(r@.map_values(f) =~~= r0.map_values(f).push(cur0));
                assert(nxt =~= seq![nxt[0]] + nxt.drop_first());
                assert(r0.map_values(f) + seq![cur0 + pre[0]] + pre.drop_first() =~~= r@.map_values(
                    f,
                ) + seq![cur@ + nxt[0]] + nxt.drop_first());
            }
        } else {
            let ghost cur0 = cur@;
            cur.push(c);
            proof {
                assert(pre == seq![seq![cs@[i as int]] + nxt[0]] + nxt.drop_first());
                assert(pre[0] == seq![cs@[i as int]] + nxt[0]);
                assert(cur0 + pre[0] =~= cur@ + nxt[0]);
                assert(pre.drop_first() =~= nxt.drop_first());
                assert(r@.map_values(f) + seq![cur0 + pre[0]] + pre.drop_first() =~~= r@.map_values(
                    f,
                ) + seq![cur@ + nxt[0]] + nxt.drop_first());
            }
        }
        i = i + 1;
    }
    let ghost f = |v: Vec<char>| v@;
    let ghost r0 = r@;
    let ghost cur0 = cur@;
    proof {
        assert(cs@.skip(cs@.len() as int) =~= Seq::<char>::empty());
        assert(spec_split(Seq::<char>::empty()) == seq![Seq::<char>::empty()]);
        assert(cur0 + Seq::<char>::empty() =~= cur0);
        assert(seq![Seq::<char>::empty()].drop_first() =~= Seq::<Seq<char>>::empty());
        assert(spec_split(cs@) =~~= r0.map_values(f).push(cur0));
    }
    r.push(cur);
    proof {
        assert(r@.map_values(f) =~~= r0.map_values(f).push(cur0));
    }
    r
}

} // verus!
