//! Byte-level facts about manifest text: the characters that delimit lines
//! and names, and how names are cut out of valid UTF-8.

use vstd::prelude::*;
use vstd::utf8::*;
use vstd::string::*;

verus! {

broadcast use vstd::utf8::group_utf8_lib;

/// A space or a horizontal tab.
pub open spec fn is_blank(c: u8) -> bool {
    c == 0x20 || c == 0x09
}

/// A line feed or a carriage return.
pub open spec fn is_line_break(c: u8) -> bool {
    c == 0x0A || c == 0x0D
}

/// A byte that ends the head of a line: a line break or a brace.
pub open spec fn is_delimiter(c: u8) -> bool {
    is_line_break(c) || c == 0x7B || c == 0x7D
}

/// The first position at or after `i` that does not hold a blank.
pub open spec fn skip_blanks(b: Seq<u8>, i: int) -> int
    decreases b.len() - i,
{
    if 0 <= i < b.len() && is_blank(b[i]) {
        skip_blanks(b, i + 1)
    } else {
        i
    }
}

/// The first position at or after `i` that holds a delimiter, or the end.
pub open spec fn head_end(b: Seq<u8>, i: int) -> int
    decreases b.len() - i,
{
    if 0 <= i < b.len() && !is_delimiter(b[i]) {
        head_end(b, i + 1)
    } else {
        i
    }
}

/// Whether position `k` ends a line: the end of the text or a line break.
pub open spec fn at_line_end(b: Seq<u8>, k: int) -> bool {
    k >= b.len() || is_line_break(b[k])
}

/// The start of the line after the line end at `k` (`\n`, `\r\n` or `\r`).
pub open spec fn next_line(b: Seq<u8>, k: int) -> int {
    if k >= b.len() {
        b.len() as int
    } else if b[k] == 0x0D && k + 1 < b.len() && b[k + 1] == 0x0A {
        k + 2
    } else {
        k + 1
    }
}

pub proof fn lemma_skip_blanks(b: Seq<u8>, i: int)
    requires
        0 <= i <= b.len(),
    ensures
        i <= skip_blanks(b, i) <= b.len(),
        forall|k: int| i <= k < skip_blanks(b, i) ==> is_blank(#[trigger] b[k]),
        skip_blanks(b, i) < b.len() ==> !is_blank(b[skip_blanks(b, i)]),
    decreases b.len() - i,
{
    if i < b.len() && is_blank(b[i]) {
        lemma_skip_blanks(b, i + 1);
    }
}

pub proof fn lemma_head_end(b: Seq<u8>, i: int)
    requires
        0 <= i <= b.len(),
    ensures
        i <= head_end(b, i) <= b.len(),
        forall|k: int| i <= k < head_end(b, i) ==> !is_delimiter(#[trigger] b[k]),
        head_end(b, i) < b.len() ==> is_delimiter(b[head_end(b, i)]),
    decreases b.len() - i,
{
    if i < b.len() && !is_delimiter(b[i]) {
        lemma_head_end(b, i + 1);
    }
}

/// A position right after an ASCII byte of valid UTF-8 starts a character.
pub proof fn lemma_boundary_after_ascii(b: Seq<u8>, p: int)
    requires
        valid_utf8(b),
        0 <= p < b.len(),
        b[p] < 0x80,
    ensures
        is_char_boundary(b, p + 1),
    decreases b.len(),
{
    let n = length_of_first_scalar(b);
    if p < n {
        reveal_with_fuel(is_char_boundary, 2);
        assert(p == 0);
    } else {
        let rest = pop_first_scalar(b);
        assert(rest[p - n] == b[p]);
        lemma_boundary_after_ascii(rest, p - n);
        reveal_with_fuel(is_char_boundary, 2);
    }
}

/// The encoding of a single ASCII character is its code.
pub proof fn lemma_encode_ascii(c: char)
    requires
        (c as u32) < 0x80,
    ensures
        encode_utf8(seq![c]) == seq![(c as u32) as u8],
{
    let v = c as u32;
    assert(v & 0x7F == v) by (bit_vector)
        requires
            v < 0x80,
    ;
    let s = seq![c];
    assert(s.drop_first() =~= Seq::<char>::empty());
    assert(s[0] == c);
    assert(encode_utf8(s.drop_first()) == Seq::<u8>::empty());
    assert(has_width_1_encoding(v));
    assert(encode_scalar(v) == seq![leading_byte_width_1(v)]);
    assert(leading_byte_width_1(v) == v as u8);
    assert(encode_utf8(s) == encode_scalar(v) + encode_utf8(s.drop_first()));
    assert(encode_utf8(s) =~= seq![(c as u32) as u8]);
}

/// Exec test for a blank.
pub fn blank(c: u8) -> (r: bool)
    ensures
        r == is_blank(c),
{
    c == 0x20 || c == 0x09
}

/// Exec test for a line break.
pub fn line_break(c: u8) -> (r: bool)
    ensures
        r == is_line_break(c),
{
    c == 0x0A || c == 0x0D
}

/// The first position at or after `i` that does not hold a blank.
pub fn exec_skip_blanks(b: &[u8], i: usize) -> (r: usize)
    requires
        i <= b@.len(),
    ensures
        r == skip_blanks(b@, i as int),
{
    let mut k = i;
    while k < b.len() && blank(b[k])
        invariant
            i <= k <= b@.len(),
            skip_blanks(b@, k as int) == skip_blanks(b@, i as int),
        decreases b@.len() - k,
    {
        k = k + 1;
    }
    k
}

/// The first position at or after `i` that holds a delimiter, or the end.
pub fn exec_head_end(b: &[u8], i: usize) -> (r: usize)
    requires
        i <= b@.len(),
    ensures
        r == head_end(b@, i as int),
{
    let mut k = i;
    while k < b.len() && !(line_break(b[k]) || b[k] == 0x7B || b[k] == 0x7D)
        invariant
            i <= k <= b@.len(),
            head_end(b@, k as int) == head_end(b@, i as int),
        decreases b@.len() - k,
    {
        k = k + 1;
    }
    k
}

/// Whether position `k` ends a line.
pub fn exec_at_line_end(b: &[u8], k: usize) -> (r: bool)
    ensures
        r == at_line_end(b@, k as int),
{
    k >= b.len() || line_break(b[k])
}

/// The start of the line after the line end at `k`.
pub fn exec_next_line(b: &[u8], k: usize) -> (r: usize)
    requires
        k <= b@.len(),
    ensures
        r == next_line(b@, k as int),
{
    if k >= b.len() {
        b.len()
    } else if b[k] == 0x0D && k + 1 < b.len() && b[k + 1] == 0x0A {
        k + 2
    } else {
        k + 1
    }
}

/// A character that Unicode counts as white space.
pub open spec fn is_white_space(c: char) -> bool {
    let v = c as u32;
    ||| v == 0x20
    ||| 0x09 <= v <= 0x0D
    ||| v == 0x85
    ||| v == 0xA0
    ||| v == 0x1680
    ||| 0x2000 <= v <= 0x200A
    ||| v == 0x2028
    ||| v == 0x2029
    ||| v == 0x202F
    ||| v == 0x205F
    ||| v == 0x3000
}

/// The first position at or after `i` that does not hold white space.
pub open spec fn lead_end(cs: Seq<char>, i: int) -> int
    decreases cs.len() - i,
{
    if 0 <= i < cs.len() && is_white_space(cs[i]) {
        lead_end(cs, i + 1)
    } else {
        i
    }
}

/// The end of `cs[a..e]` once trailing white space is removed.
pub open spec fn trail_start(cs: Seq<char>, a: int, e: int) -> int
    decreases e - a,
{
    if a < e && is_white_space(cs[e - 1]) {
        trail_start(cs, a, e - 1)
    } else {
        e
    }
}

/// The characters without white space at either end.
pub open spec fn trim_chars(cs: Seq<char>) -> Seq<char> {
    let a = lead_end(cs, 0);
    cs.subrange(a, trail_start(cs, a, cs.len() as int))
}

/// The UTF-8 text `raw` without white space at either end.
pub open spec fn trim_name(raw: Seq<u8>) -> Seq<u8> {
    encode_utf8(trim_chars(decode_utf8(raw)))
}

pub proof fn lemma_lead_end(cs: Seq<char>, i: int)
    requires
        0 <= i <= cs.len(),
    ensures
        i <= lead_end(cs, i) <= cs.len(),
        forall|k: int| i <= k < lead_end(cs, i) ==> is_white_space(#[trigger] cs[k]),
        lead_end(cs, i) < cs.len() ==> !is_white_space(cs[lead_end(cs, i)]),
    decreases cs.len() - i,
{
    if i < cs.len() && is_white_space(cs[i]) {
        lemma_lead_end(cs, i + 1);
    }
}

pub proof fn lemma_trail_start(cs: Seq<char>, a: int, e: int)
    requires
        0 <= a <= e <= cs.len(),
    ensures
        a <= trail_start(cs, a, e) <= e,
        forall|k: int| trail_start(cs, a, e) <= k < e ==> is_white_space(#[trigger] cs[k]),
        trail_start(cs, a, e) > a ==> !is_white_space(cs[trail_start(cs, a, e) - 1]),
    decreases e - a,
{
    if a < e && is_white_space(cs[e - 1]) {
        lemma_trail_start(cs, a, e - 1);
    }
}

/// Trimmed characters start and end with something other than white space.
pub proof fn lemma_trim_chars(cs: Seq<char>)
    ensures
        trim_chars(cs).len() > 0 ==> !is_white_space(trim_chars(cs)[0]) && !is_white_space(
            trim_chars(cs)[trim_chars(cs).len() - 1],
        ),
        trim_chars(trim_chars(cs)) == trim_chars(cs),
{
    lemma_lead_end(cs, 0);
    let a = lead_end(cs, 0);
    lemma_trail_start(cs, a, cs.len() as int);
    let t = trim_chars(cs);
    if t.len() > 0 {
        assert(t[0] == cs[a]);
        assert(t[t.len() - 1] == cs[trail_start(cs, a, cs.len() as int) - 1]);
    }
    lemma_lead_end(t, 0);
    lemma_trail_start(t, 0, t.len() as int);
    assert(lead_end(t, 0) == 0);
    assert(trail_start(t, 0, t.len() as int) == t.len());
    assert(trim_chars(t) =~= t);
}

/// A trimmed name is its own trim.
pub proof fn lemma_trim_name_idempotent(raw: Seq<u8>)
    ensures
        trim_name(trim_name(raw)) == trim_name(raw),
{
    let t = trim_chars(decode_utf8(raw));
    encode_utf8_decode_utf8(t);
    lemma_trim_chars(decode_utf8(raw));
}

/// Whether `c` is white space.
pub fn white_space(c: char) -> (r: bool)
    ensures
        r == is_white_space(c),
{
    let v = c as u32;
    v == 0x20 || (0x09 <= v && v <= 0x0D) || v == 0x85 || v == 0xA0 || v == 0x1680 || (0x2000
        <= v && v <= 0x200A) || v == 0x2028 || v == 0x2029 || v == 0x202F || v == 0x205F || v
        == 0x3000
}

/// The text without white space at either end.
pub fn trim_text(t: &String) -> (r: String)
    ensures
        r@ == trim_chars(t@),
{
    let st = t.as_str();
    let n = st.unicode_len();
    let mut a: usize = 0;
    while a < n && white_space(st.get_char(a))
        invariant
            a <= n,
            n == t@.len(),
            st@ == t@,
            lead_end(t@, 0) == lead_end(t@, a as int),
        decreases n - a,
    {
        a = a + 1;
    }
    let mut e: usize = n;
    while e > a && white_space(st.get_char(e - 1))
        invariant
            a <= e <= n,
            n == t@.len(),
            st@ == t@,
            lead_end(t@, 0) == a,
            trail_start(t@, a as int, n as int) == trail_start(t@, a as int, e as int),
        decreases e - a,
    {
        e = e - 1;
    }
    st.substring_char(a, e).to_owned()
}

/// A cut of valid UTF-8 next to ASCII bytes at both ends is valid UTF-8.
pub proof fn lemma_ascii_cut_valid(b: Seq<u8>, s: int, e: int)
    requires
        valid_utf8(b),
        0 <= s <= e <= b.len(),
        s == 0 || b[s - 1] < 0x80,
        e == b.len() || b[e] < 0x80,
    ensures
        valid_utf8(b.subrange(s, e)),
{
    if s > 0 {
        lemma_boundary_after_ascii(b, s - 1);
    } else {
        is_char_boundary_start_end_of_seq(b);
    }
    valid_utf8_split(b, s);
    let rb = b.subrange(s, b.len() as int);
    if e < b.len() {
        assert(rb[e - s] == b[e]);
        is_char_boundary_iff_not_is_continuation_byte(rb, e - s);
    } else {
        is_char_boundary_start_end_of_seq(rb);
    }
    valid_utf8_split(rb, e - s);
    assert(rb.subrange(0, e - s) =~= b.subrange(s, e));
}

/// The text that `{:?}` writes for a string: the string in double quotes,
/// each character escaped as `char::escape_debug` does.
pub uninterp spec fn debug_text(s: Seq<char>) -> Seq<char>;

/// The string as `format!("{:?}", s)` writes it. Nothing is stated of that
/// text but that it is a function of the string alone.
#[verifier::external_body]
pub(crate) fn debug_quoted(s: &String) -> (r: String)
    ensures
        r@ == debug_text(s@),
{
    format!("{:?}", s)
}

/// The three texts one after another.
pub fn concat_text(a: &str, b: &str, c: &str) -> (r: String)
    ensures
        r@ == a@ + b@ + c@,
{
    let mut r = a.to_owned();
    r.append(b);
    r.append(c);
    r
}

/// The text between byte positions `s` and `e`, as an owned string.
pub fn substring(input: &str, s: usize, e: usize) -> (r: String)
    requires
        s <= e <= input.spec_bytes().len(),
        s == 0 || input.spec_bytes()[s - 1] < 0x80,
        e == input.spec_bytes().len() || input.spec_bytes()[e as int] < 0x80,
    ensures
        encode_utf8(r@) == input.spec_bytes().subrange(s as int, e as int),
{
    let ghost b = input.spec_bytes();
    proof {
        encode_utf8_valid_utf8(input@);
        if s > 0 {
            lemma_boundary_after_ascii(b, s - 1);
        } else {
            is_char_boundary_start_end_of_seq(b);
        }
        valid_utf8_split(b, s as int);
    }
    let (_, right) = input.split_at(s);
    let ghost rb = b.subrange(s as int, b.len() as int);
    proof {
        assert(right.spec_bytes() =~= rb);
        assert(valid_utf8(rb));
        if e < b.len() {
            assert(rb[e - s] == b[e as int]);
            is_char_boundary_iff_not_is_continuation_byte(rb, e - s);
        } else {
            is_char_boundary_start_end_of_seq(rb);
        }
        assert(is_char_boundary(right.spec_bytes(), (e - s) as int));
    }
    let (piece, _) = right.split_at(e - s);
    proof {
        assert(piece.spec_bytes() =~= b.subrange(s as int, e as int));
    }
    piece.to_owned()
}

} // verus!
