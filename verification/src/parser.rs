//! The `.fsman` grammar and its parser.
//!
//! A manifest is a sequence of lines. Each line holds, after optional
//! indentation of spaces and tabs, one directive followed by optional blanks:
//! `name` (include), `!name` (exclude), `*`, `**`, `***`, `name {` (opens a
//! block whose directives follow on the next lines) or `}` (closes the
//! innermost block). Blank lines are ignored, and lines end with `\n`,
//! `\r\n`, `\r` or the end of the text. A name is a non-empty run of
//! characters other than line breaks and braces, with the white space around
//! it removed.

use vstd::prelude::*;
use vstd::utf8::*;
use vstd::string::*;
use crate::manifest::{directives_of, utf8_of, Directive, Entry, Manifest};
use crate::text::{
    at_line_end, exec_at_line_end, exec_head_end, exec_next_line, exec_skip_blanks,
    head_end, is_blank, is_delimiter, is_line_break, lemma_ascii_cut_valid, lemma_head_end,
    lemma_lead_end, lemma_skip_blanks, lemma_trail_start, lemma_trim_name_idempotent,
    line_break, next_line, skip_blanks, substring, trim_chars, trim_name, trim_text,
    lead_end, trail_start,
};
use crate::paths::lemma_encode_utf8_add;

verus! {

broadcast use vstd::utf8::group_utf8_lib;

/// What the parser expected where it stopped.
#[derive(Debug, Clone, Copy, PartialEq, Eq, Structural)]
pub enum ParseErrorKind {
    /// A directive needs a name here.
    ExpectedPath,
    /// Only blanks may follow a directive on its line.
    ExpectedLineEnd,
    /// The text ended inside a block.
    ExpectedClosingBrace,
    /// A `}` appeared outside of any block.
    UnexpectedClosingBrace,
}

/// An error encountered while parsing a filesystem selection manifest.
#[derive(Debug, Clone, Copy, PartialEq, Eq, Structural)]
pub struct ParseError {
    /// The byte offset at which parsing stopped.
    pub position: usize,
    /// What was expected at that offset.
    pub kind: ParseErrorKind,
}

/// The message that describes what was expected where parsing stopped.
pub open spec fn error_message(kind: ParseErrorKind) -> Seq<char> {
    match kind {
        ParseErrorKind::ExpectedPath => "expected a path"@,
        ParseErrorKind::ExpectedLineEnd => "expected the end of the line"@,
        ParseErrorKind::ExpectedClosingBrace => "expected `}` to close the block"@,
        ParseErrorKind::UnexpectedClosingBrace => "unexpected `}` outside of a block"@,
    }
}

impl ParseError {
    /// Return the byte range in the source input where parsing failed.
    ///
    /// Point errors are represented by an empty range.
    pub fn byte_range(&self) -> (r: std::ops::Range<usize>)
        ensures
            r.start == self.position,
            r.end == self.position,
    {
        self.position..self.position
    }

    /// Return the concise error message.
    pub fn message(&self) -> (r: String)
        ensures
            r@ == error_message(self.kind),
    {
        match self.kind {
            ParseErrorKind::ExpectedPath => "expected a path".to_owned(),
            ParseErrorKind::ExpectedLineEnd => "expected the end of the line".to_owned(),
            ParseErrorKind::ExpectedClosingBrace => "expected `}` to close the block".to_owned(),
            ParseErrorKind::UnexpectedClosingBrace => "unexpected `}` outside of a block".to_owned(),
        }
    }
}

/// The outcome of parsing one directive line.
pub enum LineParse {
    /// A directive that fits on its line, and the start of the next line.
    Item(Directive, int),
    /// A block header with its name, and the start of the block's body.
    Open(Seq<u8>, int),
    /// A syntax error at a byte offset.
    Fail(int, ParseErrorKind),
}

/// The wildcard directive that a trimmed line spells, if any.
pub open spec fn wildcard(name: Seq<u8>) -> Option<Directive> {
    if name == seq![0x2Au8] {
        Some(Directive::Children)
    } else if name == seq![0x2Au8, 0x2Au8] {
        Some(Directive::Recursive)
    } else if name == seq![0x2Au8, 0x2Au8, 0x2Au8] {
        Some(Directive::RecursiveAll)
    } else {
        None
    }
}

/// Parses the directive that starts at `j`, a position that holds neither a
/// blank, a line break nor `}`. A name is what stands before the end of the
/// line or a brace, without white space at either end.
pub open spec fn parse_line(b: Seq<u8>, j: int) -> LineParse {
    let h = head_end(b, j);
    if b[j] == 0x21 {
        let name = trim_name(b.subrange(j + 1, h));
        if name.len() == 0 {
            LineParse::Fail(h, ParseErrorKind::ExpectedPath)
        } else if at_line_end(b, h) {
            LineParse::Item(Directive::Exclude(name), next_line(b, h))
        } else {
            LineParse::Fail(h, ParseErrorKind::ExpectedLineEnd)
        }
    } else {
        let name = trim_name(b.subrange(j, h));
        if name.len() == 0 {
            LineParse::Fail(h, ParseErrorKind::ExpectedPath)
        } else if wildcard(name) is Some {
            if at_line_end(b, h) {
                LineParse::Item(wildcard(name)->0, next_line(b, h))
            } else {
                LineParse::Fail(h, ParseErrorKind::ExpectedLineEnd)
            }
        } else if at_line_end(b, h) {
            LineParse::Item(Directive::Include(name), next_line(b, h))
        } else if b[h] == 0x7B {
            let k = skip_blanks(b, h + 1);
            if at_line_end(b, k) {
                LineParse::Open(name, next_line(b, k))
            } else {
                LineParse::Fail(k, ParseErrorKind::ExpectedLineEnd)
            }
        } else {
            LineParse::Fail(h, ParseErrorKind::ExpectedLineEnd)
        }
    }
}

/// Nothing trims to nothing.
proof fn lemma_trim_empty(b: Seq<u8>, j: int)
    requires
        0 <= j <= b.len(),
    ensures
        trim_name(b.subrange(j, j)).len() == 0,
{
    let e = b.subrange(j, j);
    let none = Seq::<char>::empty();
    encode_utf8_decode_utf8(none);
    assert(encode_utf8(none) =~= e);
    assert(decode_utf8(e) =~= none);
    assert(trim_chars(decode_utf8(e)) =~= Seq::<char>::empty());
}

/// A position at which a line starts.
pub open spec fn line_start(b: Seq<u8>, i: int) -> bool {
    i == 0 || i == b.len() || (0 < i <= b.len() && is_line_break(b[i - 1]))
}

pub proof fn lemma_parse_line(b: Seq<u8>, j: int)
    requires
        0 <= j < b.len(),
    ensures
        parse_line(b, j) matches LineParse::Item(_, q) ==> j < q <= b.len() && line_start(b, q),
        parse_line(b, j) matches LineParse::Open(_, q) ==> j < q <= b.len() && line_start(b, q),
        parse_line(b, j) matches LineParse::Fail(p, _) ==> 0 <= p <= b.len(),
{
    lemma_head_end(b, j);
    let h = head_end(b, j);
    if h == j {
        lemma_trim_empty(b, j);
    }
    if b[j] != 0x21 && !at_line_end(b, h) && b[h] == 0x7B {
        lemma_skip_blanks(b, h + 1);
    }
}

/// Parses the lines from `i` on as the body of a block (`nested`) or of the
/// whole manifest. On success, returns the directives and the position after
/// the closing `}` line (or the end of the text at the top level).
pub open spec fn parse_block(b: Seq<u8>, i: int, nested: bool) -> Result<
    (Seq<Directive>, int),
    (int, ParseErrorKind),
>
    decreases b.len() - i,
{
    if !(0 <= i <= b.len()) {
        Err((i, ParseErrorKind::ExpectedPath))
    } else {
        let j = skip_blanks(b, i);
        if j >= b.len() {
            if nested {
                Err((b.len() as int, ParseErrorKind::ExpectedClosingBrace))
            } else {
                Ok((seq![], b.len() as int))
            }
        } else if is_line_break(b[j]) {
            proof {
                lemma_skip_blanks(b, i);
            }
            parse_block(b, next_line(b, j), nested)
        } else if b[j] == 0x7D {
            if nested {
                let k = skip_blanks(b, j + 1);
                if at_line_end(b, k) {
                    Ok((seq![], next_line(b, k)))
                } else {
                    Err((k, ParseErrorKind::ExpectedLineEnd))
                }
            } else {
                Err((j, ParseErrorKind::UnexpectedClosingBrace))
            }
        } else {
            proof {
                lemma_skip_blanks(b, i);
                lemma_parse_line(b, j);
            }
            match parse_line(b, j) {
                LineParse::Fail(p, kind) => Err((p, kind)),
                LineParse::Item(d, q) => match parse_block(b, q, nested) {
                    Ok((rest, end)) => Ok((seq![d] + rest, end)),
                    Err(e) => Err(e),
                },
                LineParse::Open(name, q) => match parse_block(b, q, true) {
                    Err(e) => Err(e),
                    Ok((children, r)) => if r <= q || r > b.len() {
                        Err((r, ParseErrorKind::ExpectedClosingBrace))
                    } else {
                        match parse_block(b, r, nested) {
                            Ok((rest, end)) => Ok(
                                (seq![Directive::Descend(name, children)] + rest, end),
                            ),
                            Err(e) => Err(e),
                        }
                    },
                },
            }
        }
    }
}

/// The meaning of a manifest text given by its UTF-8 bytes.
pub open spec fn parse_spec(b: Seq<u8>) -> Result<Seq<Directive>, (int, ParseErrorKind)> {
    match parse_block(b, 0, false) {
        Ok((ds, _)) => Ok(ds),
        Err(e) => Err(e),
    }
}

/// Puts `pre` in front of the directives of a block parse.
pub open spec fn prepend(
    pre: Seq<Directive>,
    r: Result<(Seq<Directive>, int), (int, ParseErrorKind)>,
) -> Result<(Seq<Directive>, int), (int, ParseErrorKind)> {
    match r {
        Ok((rest, end)) => Ok((pre + rest, end)),
        Err(e) => Err(e),
    }
}

pub proof fn lemma_block_bounds(b: Seq<u8>, i: int, nested: bool)
    requires
        0 <= i <= b.len(),
    ensures
        parse_block(b, i, nested) matches Ok((_, end)) ==> i <= end <= b.len() && (nested ==> i
            < end) && line_start(b, end),
        parse_block(b, i, nested) matches Err((p, _)) ==> 0 <= p <= b.len(),
    decreases b.len() - i,
{
    lemma_skip_blanks(b, i);
    let j = skip_blanks(b, i);
    if j >= b.len() {
    } else if is_line_break(b[j]) {
        lemma_block_bounds(b, next_line(b, j), nested);
    } else if b[j] == 0x7D {
        lemma_skip_blanks(b, j + 1);
    } else {
        lemma_parse_line(b, j);
        match parse_line(b, j) {
            LineParse::Fail(p, kind) => {},
            LineParse::Item(d, q) => {
                lemma_block_bounds(b, q, nested);
            },
            LineParse::Open(name, q) => {
                lemma_block_bounds(b, q, true);
                match parse_block(b, q, true) {
                    Err(e) => {},
                    Ok((children, r)) => {
                        if !(r <= q || r > b.len()) {
                            lemma_block_bounds(b, r, nested);
                        }
                    },
                }
            },
        }
    }
}

/// A name as it stands in a parsed directive: not empty, its own trim (no
/// white space at either end), and without line breaks or braces.
pub open spec fn clean_name(n: Seq<u8>) -> bool {
    &&& n.len() > 0
    &&& n == trim_name(n)
    &&& forall|k: int| 0 <= k < n.len() ==> !is_delimiter(#[trigger] n[k])
}

/// Trimming valid UTF-8 keeps a run of its bytes, so it adds no delimiter.
proof fn lemma_trim_adds_no_delimiter(raw: Seq<u8>)
    requires
        valid_utf8(raw),
        forall|k: int| 0 <= k < raw.len() ==> !is_delimiter(#[trigger] raw[k]),
    ensures
        forall|k: int|
            0 <= k < trim_name(raw).len() ==> !is_delimiter(#[trigger] trim_name(raw)[k]),
{
    let d = decode_utf8(raw);
    decode_utf8_encode_utf8(raw);
    lemma_lead_end(d, 0);
    let a = lead_end(d, 0);
    lemma_trail_start(d, a, d.len() as int);
    let z = trail_start(d, a, d.len() as int);
    let t = d.subrange(a, z);
    let pre = d.subrange(0, a);
    let post = d.subrange(z, d.len() as int);
    assert(d =~= pre + t + post);
    lemma_encode_utf8_add(pre + t, post);
    lemma_encode_utf8_add(pre, t);
    let x = encode_utf8(pre).len();
    let n = encode_utf8(t);
    assert(raw == encode_utf8(pre) + n + encode_utf8(post));
    assert forall|k: int| 0 <= k < n.len() implies !is_delimiter(#[trigger] n[k]) by {
        assert(n[k] == raw[x + k]);
    }
}

/// A directive whose names, down through its blocks, are clean, and whose
/// included names are not wildcards.
pub open spec fn clean_directive(d: Directive) -> bool
    decreases d,
{
    match d {
        Directive::Include(n) => clean_name(n) && wildcard(n) is None,
        Directive::Exclude(n) => clean_name(n),
        Directive::Descend(n, sub) => clean_name(n) && forall|i: int|
            0 <= i < sub.len() ==> clean_directive(#[trigger] sub[i]),
        _ => true,
    }
}

pub open spec fn all_clean(ds: Seq<Directive>) -> bool {
    forall|i: int| 0 <= i < ds.len() ==> clean_directive(#[trigger] ds[i])
}

proof fn lemma_parse_line_clean(b: Seq<u8>, j: int)
    requires
        valid_utf8(b),
        0 <= j < b.len(),
        !is_blank(b[j]),
        j == 0 || b[j - 1] < 0x80,
    ensures
        parse_line(b, j) matches LineParse::Item(d, _) ==> clean_directive(d),
        parse_line(b, j) matches LineParse::Open(n, _) ==> clean_name(n),
{
    lemma_head_end(b, j);
    let h = head_end(b, j);
    let st = if b[j] == 0x21 {
        j + 1
    } else {
        j
    };
    assert(st <= h) by {
        if b[j] == 0x21 {
            assert(!is_delimiter(b[j]));
        }
    }
    lemma_ascii_cut_valid(b, st, h);
    let raw = b.subrange(st, h);
    assert forall|k: int| 0 <= k < raw.len() implies !is_delimiter(#[trigger] raw[k]) by {
        assert(raw[k] == b[st + k]);
    }
    lemma_trim_adds_no_delimiter(raw);
    lemma_trim_name_idempotent(raw);
}

proof fn lemma_block_clean(b: Seq<u8>, i: int, nested: bool)
    requires
        valid_utf8(b),
        0 <= i <= b.len(),
        line_start(b, i),
    ensures
        parse_block(b, i, nested) matches Ok((ds, _)) ==> all_clean(ds),
    decreases b.len() - i,
{
    lemma_skip_blanks(b, i);
    let j = skip_blanks(b, i);
    if j >= b.len() {
    } else if is_line_break(b[j]) {
        let q = next_line(b, j);
        if q > 0 && q < b.len() {
            assert(is_line_break(b[q - 1]));
        }
        lemma_block_clean(b, q, nested);
    } else if b[j] == 0x7D {
    } else {
        if j > i {
            assert(is_blank(b[j - 1]));
        }
        lemma_parse_line(b, j);
        lemma_parse_line_clean(b, j);
        match parse_line(b, j) {
            LineParse::Fail(p, kind) => {},
            LineParse::Item(d, q) => {
                lemma_block_clean(b, q, nested);
                match parse_block(b, q, nested) {
                    Ok((rest, end)) => {
                        assert forall|k: int| 0 <= k < (seq![d] + rest).len() implies clean_directive(
                            #[trigger] (seq![d] + rest)[k],
                        ) by {
                            if k > 0 {
                                assert((seq![d] + rest)[k] == rest[k - 1]);
                            }
                        }
                    },
                    Err(_) => {},
                }
            },
            LineParse::Open(name, q) => {
                lemma_block_clean(b, q, true);
                lemma_block_bounds(b, q, true);
                match parse_block(b, q, true) {
                    Err(e) => {},
                    Ok((children, r)) => {
                        if !(r <= q || r > b.len()) {
                            lemma_block_clean(b, r, nested);
                            let d = Directive::Descend(name, children);
                            assert(clean_directive(d));
                            match parse_block(b, r, nested) {
                                Ok((rest, end)) => {
                                    assert forall|k: int|
                                        0 <= k < (seq![d] + rest).len() implies clean_directive(
                                        #[trigger] (seq![d] + rest)[k],
                                    ) by {
                                        if k > 0 {
                                            assert((seq![d] + rest)[k] == rest[k - 1]);
                                        }
                                    }
                                },
                                Err(_) => {},
                            }
                        }
                    },
                }
            },
        }
    }
}

/// Every name in a parsed manifest, at any depth of blocks, is non-empty,
/// equals its own trim (no white space at either end) and holds no line
/// break or brace; and no included name is one of the wildcards `*`, `**` or
/// `***`.
pub proof fn law_parsed_names_are_clean(text: Seq<u8>)
    requires
        valid_utf8(text),
    ensures
        parse_spec(text) matches Ok(ds) ==> all_clean(ds),
{
    lemma_block_clean(text, 0, false);
}

/// A parse error points into the text or just past its end.
pub proof fn law_error_position_within_text(text: Seq<u8>)
    ensures
        parse_spec(text) matches Err((p, _)) ==> 0 <= p <= text.len(),
{
    lemma_block_bounds(text, 0, false);
}

/// A position at the end of the text, at an ASCII byte, or right after one.
pub open spec fn near_ascii(b: Seq<u8>, p: int) -> bool {
    ||| p == b.len()
    ||| (0 <= p < b.len() && b[p] < 0x80)
    ||| (0 < p <= b.len() && b[p - 1] < 0x80)
}

proof fn lemma_parse_line_error_near_ascii(b: Seq<u8>, j: int)
    requires
        0 <= j < b.len(),
        !is_blank(b[j]),
    ensures
        parse_line(b, j) matches LineParse::Fail(p, _) ==> near_ascii(b, p),
{
    lemma_head_end(b, j);
    let h = head_end(b, j);
    if b[j] != 0x21 && !at_line_end(b, h) && b[h] == 0x7B {
        lemma_skip_blanks(b, h + 1);
        let k = skip_blanks(b, h + 1);
        if k > h + 1 {
            assert(is_blank(b[k - 1]));
        }
    }
}

/// Every parse error stands next to ASCII text, so on a character boundary.
pub proof fn lemma_error_near_ascii(b: Seq<u8>, i: int, nested: bool)
    requires
        0 <= i <= b.len(),
        line_start(b, i),
    ensures
        parse_block(b, i, nested) matches Err((p, _)) ==> near_ascii(b, p),
    decreases b.len() - i,
{
    lemma_skip_blanks(b, i);
    let j = skip_blanks(b, i);
    if j >= b.len() {
    } else if is_line_break(b[j]) {
        let q = next_line(b, j);
        if q > 0 && q < b.len() {
            assert(is_line_break(b[q - 1]));
        }
        lemma_error_near_ascii(b, q, nested);
    } else if b[j] == 0x7D {
        lemma_skip_blanks(b, j + 1);
        let k = skip_blanks(b, j + 1);
        if k > j + 1 {
            assert(is_blank(b[k - 1]));
        }
    } else {
        lemma_parse_line(b, j);
        lemma_parse_line_error_near_ascii(b, j);
        match parse_line(b, j) {
            LineParse::Fail(p, kind) => {},
            LineParse::Item(d, q) => {
                lemma_error_near_ascii(b, q, nested);
            },
            LineParse::Open(name, q) => {
                lemma_error_near_ascii(b, q, true);
                lemma_block_bounds(b, q, true);
                match parse_block(b, q, true) {
                    Err(e) => {},
                    Ok((children, r)) => {
                        if !(r <= q || r > b.len()) {
                            lemma_error_near_ascii(b, r, nested);
                        }
                    },
                }
            },
        }
    }
}

/// The executable outcome of parsing one directive line.
pub enum ExecLine {
    Item(Entry, usize),
    Open(String, usize),
    Fail(usize, ParseErrorKind),
}

pub open spec fn exec_line_matches(r: ExecLine, s: LineParse) -> bool {
    match (r, s) {
        (ExecLine::Item(e, q), LineParse::Item(d, q2)) => e@ == d && q == q2,
        (ExecLine::Open(n, q), LineParse::Open(n2, q2)) => utf8_of(n) == n2 && q == q2,
        (ExecLine::Fail(p, k), LineParse::Fail(p2, k2)) => p == p2 && k == k2,
        _ => false,
    }
}

fn exec_parse_line(input: &str, b: &[u8], j: usize) -> (r: ExecLine)
    requires
        b@ == input.spec_bytes(),
        j < b@.len(),
        !is_blank(b@[j as int]),
        !is_line_break(b@[j as int]),
        b@[j as int] != 0x7D,
        j == 0 || b@[j - 1] < 0x80,
    ensures
        exec_line_matches(r, parse_line(b@, j as int)),
{
    proof {
        lemma_head_end(b@, j as int);
        lemma_parse_line(b@, j as int);
    }
    let h = exec_head_end(b, j);
    let excl = b[j] == 0x21;
    let st = if excl {
        j + 1
    } else {
        j
    };
    proof {
        if excl {
            assert(!is_delimiter(b@[j as int]));
        }
    }
    let raw = substring(input, st, h);
    let name = trim_text(&raw);
    let ghost nb = trim_name(b@.subrange(st as int, h as int));
    proof {
        encode_utf8_decode_utf8(raw@);
        assert(utf8_of(name) == nb);
    }
    let nbytes = name.as_str().as_bytes();
    let len = nbytes.len();
    proof {
        assert(nbytes@ == nb);
    }
    if len == 0 {
        return ExecLine::Fail(h, ParseErrorKind::ExpectedPath);
    }
    if excl {
        if exec_at_line_end(b, h) {
            ExecLine::Item(Entry::Exclude { path: name }, exec_next_line(b, h))
        } else {
            ExecLine::Fail(h, ParseErrorKind::ExpectedLineEnd)
        }
    } else {
        let stars = len <= 3 && nbytes[0] == 0x2A && (len < 2 || nbytes[1] == 0x2A) && (len < 3
            || nbytes[2] == 0x2A);
        proof {
            if len == 1 {
                assert(stars ==> nb =~= seq![0x2Au8]);
            } else if len == 2 {
                assert(stars ==> nb =~= seq![0x2Au8, 0x2Au8]);
            } else if len == 3 {
                assert(stars ==> nb =~= seq![0x2Au8, 0x2Au8, 0x2Au8]);
            }
            let w1 = seq![0x2Au8];
            let w2 = seq![0x2Au8, 0x2Au8];
            let w3 = seq![0x2Au8, 0x2Au8, 0x2Au8];
            assert(w1.len() == 1 && w1[0] == 0x2A);
            assert(w2.len() == 2 && w2[0] == 0x2A && w2[1] == 0x2A);
            assert(w3.len() == 3 && w3[0] == 0x2A && w3[1] == 0x2A && w3[2] == 0x2A);
            assert(stars == (wildcard(nb) is Some));
        }
        if stars {
            if exec_at_line_end(b, h) {
                let next = exec_next_line(b, h);
                if len == 1 {
                    ExecLine::Item(Entry::IncludeChildren, next)
                } else if len == 2 {
                    ExecLine::Item(Entry::IncludeRecursive, next)
                } else {
                    ExecLine::Item(Entry::IncludeRecursiveAll, next)
                }
            } else {
                ExecLine::Fail(h, ParseErrorKind::ExpectedLineEnd)
            }
        } else if exec_at_line_end(b, h) {
            ExecLine::Item(Entry::Include { path: name }, exec_next_line(b, h))
        } else if b[h] == 0x7B {
            let k = exec_skip_blanks(b, h + 1);
            proof {
                lemma_skip_blanks(b@, h + 1);
            }
            if exec_at_line_end(b, k) {
                ExecLine::Open(name, exec_next_line(b, k))
            } else {
                ExecLine::Fail(k, ParseErrorKind::ExpectedLineEnd)
            }
        } else {
            ExecLine::Fail(h, ParseErrorKind::ExpectedLineEnd)
        }
    }
}

/// Whether an executable block parse agrees with the spec's.
pub open spec fn block_matches(
    r: Result<(Vec<Entry>, usize), ParseError>,
    s: Result<(Seq<Directive>, int), (int, ParseErrorKind)>,
) -> bool {
    match (r, s) {
        (Ok((es, end)), Ok((ds, end2))) => directives_of(es@) == ds && end == end2,
        (Err(pe), Err((p, k))) => pe.position == p && pe.kind == k,
        _ => false,
    }
}

fn exec_parse_block(input: &str, b: &[u8], i: usize, nested: bool) -> (r: Result<
    (Vec<Entry>, usize),
    ParseError,
>)
    requires
        b@ == input.spec_bytes(),
        i <= b@.len(),
        line_start(b@, i as int),
    ensures
        block_matches(r, parse_block(b@, i as int, nested)),
    decreases b@.len() - i,
{
    let mut entries: Vec<Entry> = Vec::new();
    let mut pos = i;
    proof {
        assert(directives_of(entries@) =~= seq![]);
        assert(prepend(seq![], parse_block(b@, i as int, nested)) =~= parse_block(
            b@,
            i as int,
            nested,
        )) by {
            match parse_block(b@, i as int, nested) {
                Ok((rest, end)) => {
                    assert(seq![] + rest =~= rest);
                },
                Err(e) => {},
            }
        }
    }
    loop
        invariant
            b@ == input.spec_bytes(),
            i <= pos <= b@.len(),
            line_start(b@, pos as int),
            parse_block(b@, i as int, nested) == prepend(
                directives_of(entries@),
                parse_block(b@, pos as int, nested),
            ),
        decreases b@.len() - pos,
    {
        let ghost pre = directives_of(entries@);
        let j = exec_skip_blanks(b, pos);
        proof {
            lemma_skip_blanks(b@, pos as int);
        }
        if j >= b.len() {
            if nested {
                return Err(ParseError { position: b.len(), kind: ParseErrorKind::ExpectedClosingBrace });
            } else {
                proof {
                    assert(pre + seq![] =~= pre);
                }
                return Ok((entries, b.len()));
            }
        } else if line_break(b[j]) {
            pos = exec_next_line(b, j);
        } else if b[j] == 0x7D {
            if nested {
                let k = exec_skip_blanks(b, j + 1);
                proof {
                    lemma_skip_blanks(b@, j + 1);
                }
                if exec_at_line_end(b, k) {
                    proof {
                        assert(pre + seq![] =~= pre);
                    }
                    return Ok((entries, exec_next_line(b, k)));
                } else {
                    return Err(ParseError { position: k, kind: ParseErrorKind::ExpectedLineEnd });
                }
            } else {
                return Err(ParseError { position: j, kind: ParseErrorKind::UnexpectedClosingBrace });
            }
        } else {
            proof {
                lemma_parse_line(b@, j as int);
            }
            let line = exec_parse_line(input, b, j);
            match line {
                ExecLine::Fail(p, kind) => {
                    return Err(ParseError { position: p, kind });
                },
                ExecLine::Item(entry, q) => {
                    let ghost d = entry@;
                    entries.push(entry);
                    proof {
                        assert(directives_of(entries@) =~= pre + seq![d]);
                        match parse_block(b@, q as int, nested) {
                            Ok((rest, end)) => {
                                assert(pre + seq![d] + rest =~= pre + (seq![d] + rest));
                            },
                            Err(e) => {},
                        }
                    }
                    pos = q;
                },
                ExecLine::Open(name, q) => {
                    let ghost nb = utf8_of(name);
                    let inner = exec_parse_block(input, b, q, true);
                    proof {
                        lemma_block_bounds(b@, q as int, true);
                    }
                    match inner {
                        Err(e) => {
                            return Err(e);
                        },
                        Ok((children, r)) => {
                            proof {
                                lemma_block_bounds(b@, r as int, nested);
                            }
                            let ghost cs = directives_of(children@);
                            let entry = Entry::Descend { path: name, entries: children };
                            proof {
                                assert(entry@ =~= Directive::Descend(nb, cs)) by {
                                    assert(entry@->Descend_1 =~= cs);
                                }
                            }
                            let ghost d = entry@;
                            entries.push(entry);
                            proof {
                                assert(directives_of(entries@) =~= pre + seq![d]);
                                match parse_block(b@, r as int, nested) {
                                    Ok((rest, end)) => {
                                        assert(pre + seq![d] + rest =~= pre + (seq![d] + rest));
                                    },
                                    Err(e) => {},
                                }
                            }
                            pos = r;
                        },
                    }
                },
            }
        }
    }
}

/// Parse a complete `.fsman` document into a typed manifest.
pub fn parse_manifest(input: &str) -> (r: Result<Manifest, ParseError>)
    ensures
        match (r, parse_spec(input.spec_bytes())) {
            (Ok(m), Ok(ds)) => m@ == ds,
            (Err(e), Err((p, k))) => e.position == p && e.kind == k,
            _ => false,
        },
{
    let b = input.as_bytes();
    match exec_parse_block(input, b, 0, false) {
        Ok((entries, _)) => Ok(Manifest { entries }),
        Err(e) => Err(e),
    }
}

// ---------------------------------------------------------------------------
// The end of the text ends a line.

/// Positions in a text and in the same text with a line feed appended that
/// stand for the same place: equal, or the two ends.
pub open spec fn same_place(b: Seq<u8>, p: int, p2: int) -> bool {
    p2 == p || (p == b.len() && p2 == b.len() + 1)
}

/// Outcomes of parsing a text and the same text with a line feed appended
/// that agree: the same directives, or the same error at the same place.
pub open spec fn same_parse(
    b: Seq<u8>,
    r: Result<(Seq<Directive>, int), (int, ParseErrorKind)>,
    r2: Result<(Seq<Directive>, int), (int, ParseErrorKind)>,
) -> bool {
    match (r, r2) {
        (Ok((ds, e)), Ok((ds2, e2))) => ds == ds2 && same_place(b, e, e2),
        (Err((p, k)), Err((p2, k2))) => k == k2 && same_place(b, p, p2),
        _ => false,
    }
}

proof fn lemma_skip_blanks_fed(b: Seq<u8>, i: int)
    requires
        0 <= i <= b.len(),
    ensures
        skip_blanks(b.push(0x0A), i) == skip_blanks(b, i),
    decreases b.len() - i,
{
    let b2 = b.push(0x0Au8);
    if i < b.len() {
        assert(b2[i] == b[i]);
        lemma_skip_blanks_fed(b, i + 1);
    } else {
        assert(b2[i] == 0x0Au8);
    }
}

proof fn lemma_head_end_fed(b: Seq<u8>, i: int)
    requires
        0 <= i <= b.len(),
    ensures
        head_end(b.push(0x0A), i) == head_end(b, i),
    decreases b.len() - i,
{
    let b2 = b.push(0x0Au8);
    if i < b.len() {
        assert(b2[i] == b[i]);
        lemma_head_end_fed(b, i + 1);
    } else {
        assert(b2[i] == 0x0Au8);
    }
}

proof fn lemma_line_end_fed(b: Seq<u8>, k: int)
    requires
        0 <= k <= b.len(),
    ensures
        at_line_end(b.push(0x0A), k) == at_line_end(b, k),
        at_line_end(b, k) ==> same_place(b, next_line(b, k), next_line(b.push(0x0A), k)),
{
    let b2 = b.push(0x0Au8);
    assert(b2[b.len() as int] == 0x0Au8);
    if k < b.len() {
        assert(b2[k] == b[k]);
        if k + 1 < b.len() {
            assert(b2[k + 1] == b[k + 1]);
        }
    }
}

proof fn lemma_parse_line_fed(b: Seq<u8>, j: int)
    requires
        0 <= j < b.len(),
    ensures
        match (parse_line(b, j), parse_line(b.push(0x0A), j)) {
            (LineParse::Item(d, q), LineParse::Item(d2, q2)) => d == d2 && same_place(b, q, q2),
            (LineParse::Open(n, q), LineParse::Open(n2, q2)) => n == n2 && same_place(b, q, q2),
            (LineParse::Fail(p, k), LineParse::Fail(p2, k2)) => p == p2 && k == k2,
            _ => false,
        },
{
    let b2 = b.push(0x0Au8);
    lemma_head_end(b, j);
    lemma_head_end_fed(b, j);
    let h = head_end(b, j);
    assert(b2[j] == b[j]);
    if b[j] == 0x21 {
        assert(b2.subrange(j + 1, h) =~= b.subrange(j + 1, h));
    }
    assert(b2.subrange(j, h) =~= b.subrange(j, h));
    lemma_line_end_fed(b, h);
    if h < b.len() {
        assert(b2[h] == b[h]);
        lemma_skip_blanks(b, h + 1);
        lemma_skip_blanks_fed(b, h + 1);
        lemma_line_end_fed(b, skip_blanks(b, h + 1));
    }
}

/// Parsing a block from `i` in `b` and from the same place `i2` in `b` with
/// a line feed appended agrees.
proof fn lemma_parse_block_fed(b: Seq<u8>, i: int, i2: int, nested: bool)
    requires
        0 <= i <= b.len(),
        same_place(b, i, i2),
    ensures
        same_parse(b, parse_block(b, i, nested), parse_block(b.push(0x0A), i2, nested)),
    decreases b.len() - i,
{
    let b2 = b.push(0x0Au8);
    let len = b.len() as int;
    assert(b2.len() == len + 1);
    assert(b2[len] == 0x0Au8);
    lemma_skip_blanks(b, i);
    if i == len {
        assert(skip_blanks(b2, len + 1) == len + 1);
        assert(skip_blanks(b2, len) == len);
        assert(next_line(b2, len) == len + 1);
        assert(parse_block(b2, len, nested) == parse_block(b2, len + 1, nested));
        return;
    }
    assert(i2 == i);
    lemma_skip_blanks_fed(b, i);
    let j = skip_blanks(b, i);
    if j >= len {
        assert(j == len);
        assert(next_line(b2, len) == len + 1);
        assert(skip_blanks(b2, len + 1) == len + 1);
        assert(parse_block(b2, len + 1, nested) == if nested {
            Err::<(Seq<Directive>, int), (int, ParseErrorKind)>(
                (len + 1, ParseErrorKind::ExpectedClosingBrace),
            )
        } else {
            Ok::<(Seq<Directive>, int), (int, ParseErrorKind)>((seq![], len + 1))
        });
        return;
    }
    assert(b2[j] == b[j]);
    if is_line_break(b[j]) {
        lemma_line_end_fed(b, j);
        lemma_parse_block_fed(b, next_line(b, j), next_line(b2, j), nested);
    } else if b[j] == 0x7D {
        if nested {
            lemma_skip_blanks(b, j + 1);
            lemma_skip_blanks_fed(b, j + 1);
            lemma_line_end_fed(b, skip_blanks(b, j + 1));
        }
    } else {
        lemma_parse_line(b, j);
        lemma_parse_line_fed(b, j);
        match parse_line(b, j) {
            LineParse::Fail(p, kind) => {},
            LineParse::Item(d, q) => {
                let q2 = parse_line(b2, j)->Item_1;
                lemma_parse_block_fed(b, q, q2, nested);
            },
            LineParse::Open(name, q) => {
                let q2 = parse_line(b2, j)->Open_1;
                lemma_parse_block_fed(b, q, q2, true);
                lemma_block_bounds(b, q, true);
                lemma_block_bounds(b2, q2, true);
                match parse_block(b, q, true) {
                    Err(e) => {},
                    Ok((children, r)) => {
                        let r2 = parse_block(b2, q2, true)->Ok_0.1;
                        lemma_parse_block_fed(b, r, r2, nested);
                    },
                }
            },
        }
    }
}

/// The end of the text ends a line as a line break does, for every
/// directive, the closing `}` included: a text parses as the same text
/// with a line feed appended, to the same directives or to the same error
/// (an error at the end of the text stands at the new end).
pub proof fn law_end_of_text_ends_a_line(t: Seq<u8>)
    ensures
        match (parse_spec(t), parse_spec(t.push(0x0A))) {
            (Ok(ds), Ok(ds2)) => ds == ds2,
            (Err((p, k)), Err((p2, k2))) => k == k2 && (p == p2 || (p == t.len() && p2 == t.len()
                + 1)),
            _ => false,
        },
{
    lemma_parse_block_fed(t, 0, 0, false);
}

} // verus!
