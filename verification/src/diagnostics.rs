//! Syntax diagnostics for editors: where in a manifest text a parse error is
//! shown, as lines and UTF-16 columns.

use vstd::prelude::*;
use vstd::utf8::*;
use vstd::string::*;
use crate::parser::{
    error_message, lemma_error_near_ascii, near_ascii, parse_manifest, parse_spec,
};

verus! {

broadcast use vstd::utf8::group_utf8_lib;

/// A position in a text: a zero-based line and a zero-based column counted in
/// UTF-16 code units.
#[derive(Debug, Clone, Copy, PartialEq, Eq, Structural)]
pub struct Position {
    pub line: u32,
    pub character: u32,
}

impl Position {
    pub fn new(line: u32, character: u32) -> (r: Position)
        ensures
            r.line == line,
            r.character == character,
    {
        Position { line, character }
    }
}

/// A range of a text between two positions.
#[derive(Debug, Clone, Copy, PartialEq, Eq, Structural)]
pub struct TextRange {
    pub start: Position,
    pub end: Position,
}

impl TextRange {
    pub fn new(start: Position, end: Position) -> (r: TextRange)
        ensures
            r.start == start,
            r.end == end,
    {
        TextRange { start, end }
    }
}

/// How serious a diagnostic is, in the editor's terms.
#[derive(Debug, Clone, Copy, PartialEq, Eq, Structural)]
pub enum Severity {
    Error,
    Warning,
    Information,
    Hint,
}

/// A syntax error to show in an editor.
#[derive(Debug)]
pub struct Diagnostic {
    /// Where the error is shown.
    pub range: TextRange,
    /// How serious it is.
    pub severity: Severity,
    /// The code that names the kind of diagnostic.
    pub code: String,
    /// The tool that reports it.
    pub source: String,
    /// What the parser expected.
    pub message: String,
}

/// The first character boundary at or after `k`.
pub open spec fn boundary_at_or_after(b: Seq<u8>, k: int) -> int
    decreases b.len() - k,
{
    if k >= b.len() {
        b.len() as int
    } else if k >= 0 && is_char_boundary(b, k) {
        k
    } else {
        boundary_at_or_after(b, k + 1)
    }
}

/// The last character boundary at or before `k`.
pub open spec fn boundary_at_or_before(b: Seq<u8>, k: int) -> int
    decreases k,
{
    if k <= 0 {
        0
    } else if is_char_boundary(b, k) {
        k
    } else {
        boundary_at_or_before(b, k - 1)
    }
}

/// The end of the text once trailing line breaks are removed.
pub open spec fn content_end(b: Seq<u8>, e: int) -> int
    decreases e,
{
    if e > 0 && e <= b.len() && (b[e - 1] == 0x0A || b[e - 1] == 0x0D) {
        content_end(b, e - 1)
    } else {
        e
    }
}

/// The byte range that shows the error range `start..end`: a non-empty range
/// is kept; an empty one within the text widens to the character at it (a
/// `\r\n` pair counts as one); one at the end of the text moves to the last
/// character before any trailing line breaks.
pub open spec fn visible_range(b: Seq<u8>, start: int, end: int) -> (int, int) {
    if start < end {
        (start, end)
    } else if start < b.len() {
        if b[start] == 0x0D && start + 1 < b.len() && b[start + 1] == 0x0A {
            (start, start + 2)
        } else {
            (start, boundary_at_or_after(b, start + 1))
        }
    } else {
        let c = content_end(b, b.len() as int);
        let e = if c == 0 {
            b.len() as int
        } else {
            c
        };
        (boundary_at_or_before(b, e - 1), e)
    }
}

/// How many UTF-16 code units the character that starts at `k` takes: two
/// exactly when its UTF-8 encoding takes four bytes.
pub open spec fn utf16_width(b: Seq<u8>, k: int) -> nat {
    if boundary_at_or_after(b, k + 1) - k >= 4 {
        2
    } else {
        1
    }
}

pub proof fn lemma_boundary_at_or_after(b: Seq<u8>, k: int)
    requires
        valid_utf8(b),
        0 <= k <= b.len(),
    ensures
        k <= boundary_at_or_after(b, k) <= b.len(),
        is_char_boundary(b, boundary_at_or_after(b, k)),
        forall|i: int| k <= i < boundary_at_or_after(b, k) ==> !is_char_boundary(b, i),
    decreases b.len() - k,
{
    is_char_boundary_start_end_of_seq(b);
    if k < b.len() && !is_char_boundary(b, k) {
        lemma_boundary_at_or_after(b, k + 1);
    }
}

pub proof fn lemma_boundary_at_or_before(b: Seq<u8>, k: int)
    requires
        valid_utf8(b),
        k <= b.len(),
    ensures
        0 <= boundary_at_or_before(b, k),
        k >= 0 ==> boundary_at_or_before(b, k) <= k,
        is_char_boundary(b, boundary_at_or_before(b, k)),
        forall|i: int| boundary_at_or_before(b, k) < i <= k ==> !is_char_boundary(b, i),
    decreases k,
{
    is_char_boundary_start_end_of_seq(b);
    if k > 0 && !is_char_boundary(b, k) {
        lemma_boundary_at_or_before(b, k - 1);
    }
}

/// Walks the text from `byte` towards `target`, counting lines and UTF-16
/// columns from `line` and `ch`. A target inside a character, or between the
/// two bytes of a `\r\n`, stops the walk before that character.
pub open spec fn position_scan(b: Seq<u8>, target: int, byte: int, line: nat, ch: nat) -> (nat, nat)
    decreases target - byte,
{
    if byte < 0 || byte >= target || byte >= b.len() {
        (line, ch)
    } else if b[byte] == 0x0D {
        let crlf = byte + 1 < b.len() && b[byte + 1] == 0x0A;
        if crlf && target == byte + 1 {
            (line, ch)
        } else {
            position_scan(
                b,
                target,
                byte + if crlf {
                    2int
                } else {
                    1int
                },
                line + 1,
                0,
            )
        }
    } else if b[byte] == 0x0A {
        position_scan(b, target, byte + 1, line + 1, 0)
    } else {
        let next = boundary_at_or_after(b, byte + 1);
        if next > target || next <= byte {
            (line, ch)
        } else {
            position_scan(b, target, next, line, ch + utf16_width(b, byte))
        }
    }
}

/// A count held in a `u32` that stops at its maximum.
pub open spec fn saturate(n: nat) -> u32 {
    if n > u32::MAX {
        u32::MAX
    } else {
        n as u32
    }
}

/// The line and UTF-16 column of the byte offset `offset` (clamped to the
/// end of the text).
pub open spec fn position_of(b: Seq<u8>, offset: int) -> Position {
    let target = if offset < b.len() {
        offset
    } else {
        b.len() as int
    };
    let (line, ch) = position_scan(b, target, 0, 0, 0);
    Position { line: saturate(line), character: saturate(ch) }
}

/// The positions of the byte range `start..end`.
pub open spec fn range_of(b: Seq<u8>, start: int, end: int) -> TextRange {
    TextRange { start: position_of(b, start), end: position_of(b, end) }
}

proof fn lemma_content_end(b: Seq<u8>, e: int)
    requires
        0 <= e <= b.len(),
    ensures
        0 <= content_end(b, e) <= e,
        content_end(b, e) < e ==> (b[content_end(b, e)] == 0x0A || b[content_end(b, e)] == 0x0D),
    decreases e,
{
    if e > 0 && (b[e - 1] == 0x0A || b[e - 1] == 0x0D) {
        lemma_content_end(b, e - 1);
    }
}

/// In a non-empty text, the range shown for a parse error at a character
/// boundary `p` covers at least one character: it is non-empty, lies within
/// the text, and starts and ends on character boundaries.
pub proof fn law_point_errors_show_a_character(text: Seq<u8>, p: int)
    requires
        valid_utf8(text),
        text.len() > 0,
        0 <= p <= text.len(),
        is_char_boundary(text, p),
    ensures
        ({
            let (s, e) = visible_range(text, p, p);
            &&& 0 <= s < e <= text.len()
            &&& is_char_boundary(text, s)
            &&& is_char_boundary(text, e)
        }),
{
    let b = text;
    is_char_boundary_start_end_of_seq(b);
    if p < b.len() {
        if b[p] == 0x0D && p + 1 < b.len() && b[p + 1] == 0x0A {
            crate::text::lemma_boundary_after_ascii(b, p + 1);
        } else {
            lemma_boundary_at_or_after(b, p + 1);
        }
    } else {
        lemma_content_end(b, b.len() as int);
        let c = content_end(b, b.len() as int);
        let e = if c == 0 {
            b.len() as int
        } else {
            c
        };
        if e < b.len() {
            is_char_boundary_iff_not_is_continuation_byte(b, e);
        }
        lemma_boundary_at_or_before(b, e - 1);
    }
}

fn is_continuation(c: u8) -> (r: bool)
    ensures
        r == is_continuation_byte(c),
{
    0x80 <= c && c <= 0xBF
}

/// The first character boundary at or after `k`.
fn next_boundary(b: &[u8], k: usize) -> (r: usize)
    requires
        valid_utf8(b@),
        k <= b@.len(),
    ensures
        r == boundary_at_or_after(b@, k as int),
{
    let mut i = k;
    proof {
        is_char_boundary_start_end_of_seq(b@);
    }
    while i < b.len() && is_continuation(b[i])
        invariant
            k <= i <= b@.len(),
            valid_utf8(b@),
            boundary_at_or_after(b@, i as int) == boundary_at_or_after(b@, k as int),
        decreases b@.len() - i,
    {
        proof {
            is_char_boundary_iff_not_is_continuation_byte(b@, i as int);
        }
        i = i + 1;
    }
    proof {
        if i < b.len() {
            is_char_boundary_iff_not_is_continuation_byte(b@, i as int);
        }
    }
    i
}

/// The last character boundary at or before `k`.
fn previous_boundary(b: &[u8], k: usize) -> (r: usize)
    requires
        valid_utf8(b@),
        k < b@.len(),
    ensures
        r == boundary_at_or_before(b@, k as int),
{
    let mut i = k;
    while i > 0 && is_continuation(b[i])
        invariant
            i <= k < b@.len(),
            valid_utf8(b@),
            boundary_at_or_before(b@, i as int) == boundary_at_or_before(b@, k as int),
        decreases i,
    {
        proof {
            is_char_boundary_iff_not_is_continuation_byte(b@, i as int);
        }
        i = i - 1;
    }
    proof {
        if i > 0 {
            is_char_boundary_iff_not_is_continuation_byte(b@, i as int);
        }
    }
    i
}

/// Return the byte range that an editor highlights for the error range
/// `range`: a non-empty range is kept, and a point is widened to one visible
/// character.
pub fn visible_byte_range(text: &str, range: std::ops::Range<usize>) -> (r: std::ops::Range<usize>)
    requires
        range.start < range.end || range.start >= text.spec_bytes().len() || is_char_boundary(
            text.spec_bytes(),
            range.start as int,
        ),
    ensures
        (r.start as int, r.end as int) == visible_range(
            text.spec_bytes(),
            range.start as int,
            range.end as int,
        ),
{
    let b = text.as_bytes();
    proof {
        encode_utf8_valid_utf8(text@);
    }
    if range.start < range.end {
        return range;
    }
    let point = range.start;
    if point < b.len() {
        if b[point] == 0x0D && point + 1 < b.len() && b[point + 1] == 0x0A {
            return point..point + 2;
        }
        proof {
            lemma_boundary_at_or_after(b@, point + 1);
        }
        let end = next_boundary(b, point + 1);
        return point..end;
    }
    let mut content = b.len();
    while content > 0 && (b[content - 1] == 0x0A || b[content - 1] == 0x0D)
        invariant
            content <= b@.len(),
            content_end(b@, content as int) == content_end(b@, b@.len() as int),
        decreases content,
    {
        content = content - 1;
    }
    let end = if content == 0 {
        b.len()
    } else {
        content
    };
    if end == 0 {
        return 0..0;
    }
    let start = previous_boundary(b, end - 1);
    start..end
}

/// Return the line and UTF-16 column of a byte offset, clamped to the text.
pub fn position_at(text: &str, byte_offset: usize) -> (r: Position)
    ensures
        r == position_of(text.spec_bytes(), byte_offset as int),
{
    let b = text.as_bytes();
    proof {
        encode_utf8_valid_utf8(text@);
        is_char_boundary_start_end_of_seq(b@);
    }
    let target = if byte_offset < b.len() {
        byte_offset
    } else {
        b.len()
    };
    let ghost whole = position_scan(b@, target as int, 0, 0, 0);
    let mut byte: usize = 0;
    let mut line: u32 = 0;
    let mut character: u32 = 0;
    let ghost mut gl: nat = 0;
    let ghost mut gc: nat = 0;
    let mut stopped = false;
    while !stopped && byte < target
        invariant
            byte <= target <= b@.len(),
            valid_utf8(b@),
            is_char_boundary(b@, byte as int),
            whole == position_scan(b@, target as int, 0, 0, 0),
            whole == if stopped {
                (gl, gc)
            } else {
                position_scan(b@, target as int, byte as int, gl, gc)
            },
            line == saturate(gl),
            character == saturate(gc),
        decreases target - byte + if stopped {
            0int
        } else {
            1int
        },
    {
        let c = b[byte];
        if c == 0x0D {
            let is_crlf = byte + 1 < b.len() && b[byte + 1] == 0x0A;
            if is_crlf && target == byte + 1 {
                stopped = true;
            } else {
                proof {
                    crate::text::lemma_boundary_after_ascii(b@, byte as int);
                    if is_crlf {
                        crate::text::lemma_boundary_after_ascii(b@, byte + 1);
                    }
                }
                byte = if is_crlf {
                    byte + 2
                } else {
                    byte + 1
                };
                line = line.saturating_add(1);
                character = 0;
                proof {
                    gl = gl + 1;
                    gc = 0;
                }
            }
        } else if c == 0x0A {
            proof {
                crate::text::lemma_boundary_after_ascii(b@, byte as int);
            }
            byte = byte + 1;
            line = line.saturating_add(1);
            character = 0;
            proof {
                gl = gl + 1;
                gc = 0;
            }
        } else {
            proof {
                lemma_boundary_at_or_after(b@, byte + 1);
            }
            let next = next_boundary(b, byte + 1);
            if next > target {
                stopped = true;
            } else {
                let units: u32 = if next - byte >= 4 {
                    2
                } else {
                    1
                };
                proof {
                    assert(units == utf16_width(b@, byte as int));
                    gc = gc + utf16_width(b@, byte as int);
                }
                character = character.saturating_add(units);
                byte = next;
            }
        }
    }
    Position { line, character }
}

/// Return the positions of the byte range `range`.
pub fn lsp_range(text: &str, range: std::ops::Range<usize>) -> (r: TextRange)
    ensures
        r == range_of(text.spec_bytes(), range.start as int, range.end as int),
{
    TextRange { start: position_at(text, range.start), end: position_at(text, range.end) }
}

/// Return the syntax diagnostics of a manifest text: none when it parses,
/// and otherwise one error, code `syntax-error` from `fsman`, at the visible
/// range of the parse error, with the parser's message.
pub fn diagnostics(text: &str) -> (r: Vec<Diagnostic>)
    ensures
        match parse_spec(text.spec_bytes()) {
            Ok(_) => r@.len() == 0,
            Err((p, kind)) => {
                let shown = visible_range(text.spec_bytes(), p, p);
                &&& r@.len() == 1
                &&& r@[0].range == range_of(text.spec_bytes(), shown.0, shown.1)
                &&& r@[0].severity == Severity::Error
                &&& r@[0].code@ == "syntax-error"@
                &&& r@[0].source@ == "fsman"@
                &&& r@[0].message@ == error_message(kind)
            },
        },
{
    let ghost b = text.spec_bytes();
    match parse_manifest(text) {
        Ok(_) => Vec::new(),
        Err(error) => {
            proof {
                encode_utf8_valid_utf8(text@);
                lemma_error_near_ascii(b, 0, false);
                crate::parser::law_error_position_within_text(b);
                let p = error.position as int;
                assert(near_ascii(b, p));
                if p < b.len() {
                    if b[p] < 0x80 {
                        is_char_boundary_iff_not_is_continuation_byte(b, p);
                    } else {
                        crate::text::lemma_boundary_after_ascii(b, p - 1);
                    }
                }
            }
            let range = error.byte_range();
            let shown = visible_byte_range(text, range);
            let mut out: Vec<Diagnostic> = Vec::new();
            out.push(
                Diagnostic {
                    range: lsp_range(text, shown),
                    severity: Severity::Error,
                    code: "syntax-error".to_owned(),
                    source: "fsman".to_owned(),
                    message: error.message(),
                },
            );
            out
        },
    }
}

/// The index of the last change that replaces the whole document (one
/// without a range), given for each change whether it has a range.
pub fn last_full_change(has_range: &Vec<bool>) -> (r: Option<usize>)
    ensures
        match r {
            Some(i) => i < has_range@.len() && !has_range@[i as int] && forall|k: int|
                i < k < has_range@.len() ==> #[trigger] has_range@[k],
            None => forall|k: int| 0 <= k < has_range@.len() ==> #[trigger] has_range@[k],
        },
{
    let mut k = has_range.len();
    while k > 0
        invariant
            k <= has_range@.len(),
            forall|j: int| k <= j < has_range@.len() ==> #[trigger] has_range@[j],
        decreases k,
    {
        if !has_range[k - 1] {
            return Some(k - 1);
        }
        k = k - 1;
    }
    None
}

/// A notification about an open document, as far as publishing diagnostics
/// goes.
pub enum DocumentEvent {
    /// The document was opened, with its text.
    Opened,
    /// The document changed; for each change, whether it has a range (a
    /// change without one replaces the whole text).
    Changed { has_range: Vec<bool> },
    /// The document was closed.
    Closed,
    /// Any other notification.
    Other,
}

/// What to publish after a notification.
#[derive(Debug, PartialEq, Eq)]
pub enum Publication {
    /// The diagnostics of the opened text, with its version.
    OpenedText,
    /// The diagnostics of the text of the change at this index, with the new
    /// version.
    ChangeText(usize),
    /// No diagnostics, without a version.
    Clear,
    /// Nothing.
    Nothing,
}

/// What a notification asks to publish: an opened document's diagnostics;
/// after a change, those of the last change that replaces the whole text
/// (nothing when every change has a range); after closing, none.
pub fn publication(event: &DocumentEvent) -> (r: Publication)
    ensures
        match *event {
            DocumentEvent::Opened => r == Publication::OpenedText,
            DocumentEvent::Changed { has_range } => match r {
                Publication::ChangeText(i) => i < has_range@.len() && !has_range@[i as int]
                    && forall|k: int| i < k < has_range@.len() ==> #[trigger] has_range@[k],
                Publication::Nothing => forall|k: int|
                    0 <= k < has_range@.len() ==> #[trigger] has_range@[k],
                _ => false,
            },
            DocumentEvent::Closed => r == Publication::Clear,
            DocumentEvent::Other => r == Publication::Nothing,
        },
{
    match event {
        DocumentEvent::Opened => Publication::OpenedText,
        DocumentEvent::Changed { has_range } => match last_full_change(has_range) {
            Some(i) => Publication::ChangeText(i),
            None => Publication::Nothing,
        },
        DocumentEvent::Closed => Publication::Clear,
        DocumentEvent::Other => Publication::Nothing,
    }
}

// ---------------------------------------------------------------------------
// Columns count UTF-16 code units.

/// How many UTF-16 code units the characters `cs` take: two for a character
/// outside the basic multilingual plane, one for any other.
pub open spec fn utf16_len(cs: Seq<char>) -> nat
    decreases cs.len(),
{
    if cs.len() == 0 {
        0
    } else {
        utf16_len(cs.drop_last()) + if (cs.last() as u32) >= 0x10000 {
            2nat
        } else {
            1nat
        }
    }
}

/// The bytes of one character: a leading byte, then continuation bytes,
/// four of them in all exactly outside the basic multilingual plane.
proof fn lemma_scalar_bytes(c: char)
    ensures
        ({
            let s = encode_scalar(c as u32);
            &&& 1 <= s.len() <= 4
            &&& (s.len() == 4) == ((c as u32) >= 0x10000)
            &&& !is_continuation_byte(s[0])
            &&& forall|k: int| 1 <= k < s.len() ==> is_continuation_byte(#[trigger] s[k])
            &&& (c as u32) != 0x0A ==> s[0] != 0x0Au8
            &&& (c as u32) != 0x0D ==> s[0] != 0x0Du8
        }),
{
    let v = c as u32;
    assert(is_scalar(v));
    assert(v <= 0x7F ==> leading_byte_width_1(v) as u32 == v) by (bit_vector);
    assert(0xC0 <= leading_byte_width_2(v)) by (bit_vector);
    assert(0xE0 <= leading_byte_width_3(v)) by (bit_vector);
    assert(0xF0 <= leading_byte_width_4(v)) by (bit_vector);
    assert(0x80 <= last_continuation_byte(v) <= 0xBF) by (bit_vector);
    assert(0x80 <= second_last_continuation_byte(v) <= 0xBF) by (bit_vector);
    assert(0x80 <= third_last_continuation_byte(v) <= 0xBF) by (bit_vector);
}

/// One character encodes as its scalar.
proof fn lemma_encode_one(c: char)
    ensures
        encode_utf8(seq![c]) == encode_scalar(c as u32),
{
    let one = seq![c];
    assert(one[0] == c);
    assert(one.drop_first() =~= Seq::<char>::empty());
    assert(encode_utf8(one.drop_first()) =~= Seq::<u8>::empty());
    assert(encode_scalar(c as u32) + Seq::<u8>::empty() =~= encode_scalar(c as u32));
}

/// Characters from `i` on encode as the `i`-th one and those after it.
proof fn lemma_encode_from(all: Seq<char>, i: int)
    requires
        0 <= i < all.len(),
    ensures
        encode_utf8(all.skip(i)) == encode_scalar(all[i] as u32) + encode_utf8(all.skip(i + 1)),
{
    let rest = all.skip(i);
    assert(rest[0] == all[i]);
    assert(rest.drop_first() =~= all.skip(i + 1));
}

/// The bytes of the `i`-th character stand right after those of the
/// characters before it.
proof fn lemma_char_layout(all: Seq<char>, i: int)
    requires
        0 <= i < all.len(),
    ensures
        ({
            let b = encode_utf8(all);
            let e = encode_utf8(all.take(i)).len() as int;
            let s = encode_scalar(all[i] as u32);
            &&& encode_utf8(all.take(i + 1)).len() == e + s.len()
            &&& e + s.len() <= b.len()
            &&& forall|k: int| 0 <= k < s.len() ==> #[trigger] b[e + k] == s[k]
        }),
{
    let pre = all.take(i);
    let c = all[i];
    let s = encode_scalar(c as u32);
    let tail = encode_utf8(all.skip(i + 1));
    assert(all =~= pre + all.skip(i));
    crate::paths::lemma_encode_utf8_add(pre, all.skip(i));
    lemma_encode_from(all, i);
    lemma_encode_one(c);
    assert(all.take(i + 1) =~= pre + seq![c]);
    crate::paths::lemma_encode_utf8_add(pre, seq![c]);
    let b = encode_utf8(all);
    let e = encode_utf8(pre).len() as int;
    assert(b == encode_utf8(pre) + (s + tail));
    assert forall|k: int| 0 <= k < s.len() implies #[trigger] b[e + k] == s[k] by {
        assert((s + tail)[k] == s[k]);
    }
}

/// The bytes of a prefix of the characters grow with the prefix.
proof fn lemma_prefix_bytes(all: Seq<char>, i: int, t: int)
    requires
        0 <= i <= t <= all.len(),
    ensures
        encode_utf8(all.take(i)).len() <= encode_utf8(all.take(t)).len() <= encode_utf8(all).len(),
{
    assert(all.take(t) =~= all.take(i) + all.subrange(i, t));
    crate::paths::lemma_encode_utf8_add(all.take(i), all.subrange(i, t));
    assert(all =~= all.take(t) + all.skip(t));
    crate::paths::lemma_encode_utf8_add(all.take(t), all.skip(t));
}

/// The character after the `i`-th starts at the first boundary after the
/// start of the `i`-th.
proof fn lemma_next_char(all: Seq<char>, i: int)
    requires
        0 <= i < all.len(),
    ensures
        boundary_at_or_after(encode_utf8(all), encode_utf8(all.take(i)).len() + 1int)
            == encode_utf8(all.take(i + 1)).len(),
{
    let b = encode_utf8(all);
    let e = encode_utf8(all.take(i)).len() as int;
    let f = encode_utf8(all.take(i + 1)).len() as int;
    let s = encode_scalar(all[i] as u32);
    encode_utf8_valid_utf8(all);
    lemma_char_layout(all, i);
    lemma_scalar_bytes(all[i]);
    assert forall|x: int| e < x < f implies !is_char_boundary(b, x) by {
        assert(b[e + (x - e)] == s[x - e]);
        is_char_boundary_iff_not_is_continuation_byte(b, x);
    }
    if i + 1 == all.len() {
        assert(all.take(i + 1) =~= all);
        is_char_boundary_start_end_of_seq(b);
    } else {
        lemma_char_layout(all, i + 1);
        lemma_scalar_bytes(all[i + 1]);
        let s2 = encode_scalar(all[i + 1] as u32);
        assert(b[f + 0] == s2[0]);
        is_char_boundary_iff_not_is_continuation_byte(b, f);
    }
    lemma_boundary_at_or_after(b, e + 1);
    let r = boundary_at_or_after(b, e + 1);
    if r < f {
        assert(!is_char_boundary(b, r));
    }
    if r > f {
        assert(!is_char_boundary(b, f));
    }
}

/// Walking the characters `i..t` of a line adds their UTF-16 code units to
/// the column and stays on the line.
proof fn lemma_scan_line(all: Seq<char>, t: int, i: int, line: nat)
    requires
        0 <= i <= t <= all.len(),
        forall|k: int| 0 <= k < t ==> (all[k] as u32) != 0x0A && (all[k] as u32) != 0x0D,
    ensures
        position_scan(
            encode_utf8(all),
            encode_utf8(all.take(t)).len() as int,
            encode_utf8(all.take(i)).len() as int,
            line,
            utf16_len(all.take(i)),
        ) == (line, utf16_len(all.take(t))),
    decreases t - i,
{
    if i < t {
        let b = encode_utf8(all);
        let e = encode_utf8(all.take(i)).len() as int;
        let f = encode_utf8(all.take(i + 1)).len() as int;
        let target = encode_utf8(all.take(t)).len() as int;
        let s = encode_scalar(all[i] as u32);
        lemma_char_layout(all, i);
        lemma_scalar_bytes(all[i]);
        lemma_next_char(all, i);
        lemma_prefix_bytes(all, i + 1, t);
        assert(b[e + 0] == s[0]);
        assert(b[e] != 0x0Du8 && b[e] != 0x0Au8);
        assert(utf16_width(b, e) == if (all[i] as u32) >= 0x10000 {
            2nat
        } else {
            1nat
        });
        assert(all.take(i + 1).drop_last() =~= all.take(i));
        assert(all.take(i + 1).last() == all[i]);
        lemma_scan_line(all, t, i + 1, line);
    }
}

/// The column of a position on the first line of a text is the number of
/// UTF-16 code units of the characters before it: one for a character whose
/// UTF-8 encoding takes one, two or three bytes, two for one that takes
/// four. So a letter with a two-byte encoding moves the column by one.
pub proof fn law_columns_count_utf16_code_units(all: Seq<char>, t: int)
    requires
        0 <= t <= all.len(),
        forall|k: int| 0 <= k < t ==> (all[k] as u32) != 0x0A && (all[k] as u32) != 0x0D,
    ensures
        position_of(encode_utf8(all), encode_utf8(all.take(t)).len() as int) == (Position {
            line: 0,
            character: saturate(utf16_len(all.take(t))),
        }),
{
    lemma_prefix_bytes(all, t, t);
    assert(all.take(0) =~= Seq::<char>::empty());
    lemma_scan_line(all, t, 0, 0);
}

} // verus!
