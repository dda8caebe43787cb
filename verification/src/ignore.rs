//! Git ignore rules, as `**` honours them: the lines of a `.gitignore` (or
//! of the global ignore file) and the paths they match. This is a subset of
//! git's syntax, and the rules apply whether or not the directory lies in a
//! repository.
//!
//! A line is a rule unless it is empty or starts with `#`. Trailing spaces
//! and a carriage return are dropped. A leading `!` turns the rule into an
//! exception, a trailing `/` makes it match directories only, and a rule
//! that holds a `/` elsewhere is anchored at the directory of its file;
//! otherwise it matches the name of an entry at any depth. Within a
//! component, `*` matches any run of bytes and `?` any one byte; a component
//! `**` matches any number of components. The last rule that matches a path
//! decides whether it is ignored.
//!
//! The rules that `**` follows come from the global ignore file and from the
//! `.gitignore` files of the directories it walks, from its own directory
//! down. The rules of a `.gitignore` apply below its directory, those of the
//! global file below the directory where `**` stands. Brackets and
//! backslashes in a pattern stand for themselves.

use vstd::prelude::*;
use crate::manifest::utf8_of;
use crate::paths::{is_prefix, utf8_seq};

verus! {

/// An ignore rule.
pub struct IgnoreRule {
    /// The directory of the rule's file, relative to where `**` started.
    pub base: Vec<String>,
    /// Whether a match keeps the path instead of ignoring it.
    pub negate: bool,
    /// Whether only directories match.
    pub dir_only: bool,
    /// Whether the pattern is matched against the whole path below `base`.
    pub anchored: bool,
    /// The components of the pattern.
    pub pattern: Vec<Vec<u8>>,
}

/// The mathematical value of an ignore rule.
pub struct Rule {
    pub base: Seq<Seq<u8>>,
    pub negate: bool,
    pub dir_only: bool,
    pub anchored: bool,
    pub pattern: Seq<Seq<u8>>,
}

pub open spec fn bytes_seq(v: Seq<Vec<u8>>) -> Seq<Seq<u8>> {
    Seq::new(v.len(), |i: int| v[i]@)
}

impl View for IgnoreRule {
    type V = Rule;

    open spec fn view(&self) -> Rule {
        Rule {
            base: utf8_seq(self.base@),
            negate: self.negate,
            dir_only: self.dir_only,
            anchored: self.anchored,
            pattern: bytes_seq(self.pattern@),
        }
    }
}

pub open spec fn rules_of(v: Seq<IgnoreRule>) -> Seq<Rule> {
    Seq::new(v.len(), |i: int| v[i]@)
}

/// The pieces of `p` between the bytes `sep`, empty pieces included.
pub open spec fn split_bytes(p: Seq<u8>, sep: u8) -> Seq<Seq<u8>>
    decreases p.len(),
{
    if p.len() == 0 {
        seq![seq![]]
    } else {
        let init = split_bytes(p.drop_last(), sep);
        if p.last() == sep {
            init.push(seq![])
        } else {
            init.update(init.len() - 1, init.last().push(p.last()))
        }
    }
}

/// A line without its trailing spaces and carriage returns.
pub open spec fn trim_line(l: Seq<u8>) -> Seq<u8>
    decreases l.len(),
{
    if l.len() > 0 && (l.last() == 0x20 || l.last() == 0x0D) {
        trim_line(l.drop_last())
    } else {
        l
    }
}

pub open spec fn non_empty() -> spec_fn(Seq<u8>) -> bool {
    |q: Seq<u8>| q.len() > 0
}

/// The rule that a line of an ignore file in the directory `base` states.
pub open spec fn rule_of_line(line: Seq<u8>, base: Seq<Seq<u8>>) -> Option<Rule> {
    let l1 = trim_line(line);
    if l1.len() == 0 || l1[0] == 0x23 {
        None
    } else {
        let negate = l1[0] == 0x21;
        let l2 = if negate {
            l1.drop_first()
        } else {
            l1
        };
        let dir_only = l2.len() > 0 && l2.last() == 0x2F;
        let l3 = if dir_only {
            l2.drop_last()
        } else {
            l2
        };
        let anchored = l3.contains(0x2Fu8);
        let pattern = split_bytes(l3, 0x2F).filter(non_empty());
        if pattern.len() == 0 {
            None
        } else {
            Some(Rule { base, negate, dir_only, anchored, pattern })
        }
    }
}

/// The rules of the lines `lines[i..]`.
pub open spec fn rules_from(lines: Seq<Seq<u8>>, base: Seq<Seq<u8>>, i: int) -> Seq<Rule>
    decreases lines.len() - i,
{
    if i < 0 || i >= lines.len() {
        seq![]
    } else {
        match rule_of_line(lines[i], base) {
            Some(r) => seq![r] + rules_from(lines, base, i + 1),
            None => rules_from(lines, base, i + 1),
        }
    }
}

/// The rules of an ignore file with the given text, in the directory `base`.
pub open spec fn parse_rules(text: Seq<u8>, base: Seq<Seq<u8>>) -> Seq<Rule> {
    rules_from(split_bytes(text, 0x0A), base, 0)
}

/// Whether the pattern component `p` matches the name `s`.
pub open spec fn glob(p: Seq<u8>, s: Seq<u8>) -> bool
    decreases p.len() + s.len(),
{
    if p.len() == 0 {
        s.len() == 0
    } else if p[0] == 0x2A {
        glob(p.drop_first(), s) || (s.len() > 0 && glob(p, s.drop_first()))
    } else if s.len() == 0 {
        false
    } else if p[0] == 0x3F || p[0] == s[0] {
        glob(p.drop_first(), s.drop_first())
    } else {
        false
    }
}

pub open spec fn double_star() -> Seq<u8> {
    seq![0x2Au8, 0x2Au8]
}

/// Whether the pattern components `p` match the path components `s`.
pub open spec fn comps_match(p: Seq<Seq<u8>>, s: Seq<Seq<u8>>) -> bool
    decreases p.len() + s.len(),
{
    if p.len() == 0 {
        s.len() == 0
    } else if p[0] == double_star() {
        comps_match(p.drop_first(), s) || (s.len() > 0 && comps_match(p, s.drop_first()))
    } else if s.len() == 0 {
        false
    } else {
        glob(p[0], s[0]) && comps_match(p.drop_first(), s.drop_first())
    }
}

/// Whether a rule matches the path `path` (relative to where `**` started).
pub open spec fn rule_matches(r: Rule, path: Seq<Seq<u8>>, is_dir: bool) -> bool {
    &&& !r.dir_only || is_dir
    &&& path.len() > r.base.len()
    &&& is_prefix(r.base, path)
    &&& if r.anchored {
        comps_match(r.pattern, path.skip(r.base.len() as int))
    } else {
        r.pattern.len() > 0 && glob(r.pattern[0], path.last())
    }
}

/// Whether the rules ignore the path: the last rule that matches decides.
pub open spec fn ignored_by(rules: Seq<Rule>, path: Seq<Seq<u8>>, is_dir: bool) -> bool
    decreases rules.len(),
{
    if rules.len() == 0 {
        false
    } else if rule_matches(rules.last(), path, is_dir) {
        !rules.last().negate
    } else {
        ignored_by(rules.drop_last(), path, is_dir)
    }
}

proof fn lemma_split_bytes_step(p: Seq<u8>, sep: u8, k: int)
    requires
        0 <= k < p.len(),
    ensures
        split_bytes(p.take(k + 1), sep) == if p[k] == sep {
            split_bytes(p.take(k), sep).push(seq![])
        } else {
            let init = split_bytes(p.take(k), sep);
            init.update(init.len() - 1, init.last().push(p[k]))
        },
{
    assert(p.take(k + 1).drop_last() =~= p.take(k));
    assert(p.take(k + 1).last() == p[k]);
}

/// The pieces of `b` between the bytes `sep`.
fn split_on(b: &[u8], sep: u8) -> (r: Vec<Vec<u8>>)
    ensures
        bytes_seq(r@) == split_bytes(b@, sep),
{
    let ghost p = b@;
    let mut pieces: Vec<Vec<u8>> = Vec::new();
    let mut cur: Vec<u8> = Vec::new();
    let mut k: usize = 0;
    proof {
        assert(p.take(0) =~= seq![]);
        assert(bytes_seq(pieces@) + seq![cur@] =~= seq![seq![]]);
    }
    while k < b.len()
        invariant
            p == b@,
            k <= p.len(),
            split_bytes(p.take(k as int), sep) == bytes_seq(pieces@) + seq![cur@],
        decreases p.len() - k,
    {
        proof {
            lemma_split_bytes_step(p, sep, k as int);
        }
        let ghost before = bytes_seq(pieces@);
        let ghost c = cur@;
        if b[k] == sep {
            let done = cur;
            pieces.push(done);
            cur = Vec::new();
            proof {
                assert(bytes_seq(pieces@) =~= before.push(c));
                assert(bytes_seq(pieces@) + seq![cur@] =~= (before + seq![c]).push(seq![]));
            }
        } else {
            cur.push(b[k]);
            proof {
                assert(bytes_seq(pieces@) + seq![cur@] =~= (before + seq![c]).update(
                    before.len() as int,
                    c.push(p[k as int]),
                ));
            }
        }
        k = k + 1;
    }
    let ghost before = bytes_seq(pieces@);
    let ghost c = cur@;
    pieces.push(cur);
    proof {
        assert(p.take(p.len() as int) =~= p);
        assert(bytes_seq(pieces@) =~= before + seq![c]);
    }
    pieces
}

/// The rule that a line states.
fn rule_from_line(line: &Vec<u8>, base: &Vec<String>) -> (r: Option<IgnoreRule>)
    ensures
        match (r, rule_of_line(line@, utf8_seq(base@))) {
            (Some(x), Some(y)) => x@ == y,
            (None, None) => true,
            _ => false,
        },
{
    let mut end = line.len();
    let ghost l = line@;
    proof {
        assert(l.take(end as int) =~= l);
    }
    while end > 0 && (line[end - 1] == 0x20 || line[end - 1] == 0x0D)
        invariant
            end <= l.len(),
            l == line@,
            trim_line(l) == trim_line(l.take(end as int)),
        decreases end,
    {
        proof {
            assert(l.take(end as int).drop_last() =~= l.take(end - 1));
        }
        end = end - 1;
    }
    let ghost l1 = l.take(end as int);
    proof {
        assert(trim_line(l1) == l1);
    }
    if end == 0 || line[0] == 0x23 {
        return None;
    }
    let negate = line[0] == 0x21;
    let start: usize = if negate {
        1
    } else {
        0
    };
    let dir_only = end > start && line[end - 1] == 0x2F;
    let stop = if dir_only {
        end - 1
    } else {
        end
    };
    let mut body: Vec<u8> = Vec::new();
    let mut anchored = false;
    let mut k = start;
    proof {
        assert(l.subrange(start as int, start as int) =~= Seq::<u8>::empty());
    }
    while k < stop
        invariant
            start <= k <= stop <= end <= l.len(),
            l == line@,
            body@ == l.subrange(start as int, k as int),
            anchored == body@.contains(0x2Fu8),
        decreases stop - k,
    {
        let ghost before = body@;
        body.push(line[k]);
        proof {
            assert(body@ =~= before.push(l[k as int]));
            assert(l.subrange(start as int, k + 1) =~= before.push(l[k as int]));
            if l[k as int] == 0x2F {
                assert(body@[before.len() as int] == 0x2Fu8);
            }
            if body@.contains(0x2Fu8) && l[k as int] != 0x2F {
                let j = choose|j: int| 0 <= j < body@.len() && body@[j] == 0x2Fu8;
                assert(before[j] == 0x2Fu8);
            }
        }
        if line[k] == 0x2F {
            anchored = true;
        }
        k = k + 1;
    }
    let ghost l3 = body@;
    proof {
        let l2 = if negate {
            l1.drop_first()
        } else {
            l1
        };
        assert(l1[0] == l[0]);
        if negate {
            assert(l2 =~= l.subrange(1, end as int));
        } else {
            assert(l2 =~= l.subrange(0, end as int));
        }
        if l2.len() > 0 {
            assert(l2.last() == l[end - 1]);
        }
        if dir_only {
            assert(l2.drop_last() =~= l3);
        } else {
            assert(l2 =~= l3);
        }
    }
    let pieces = split_on(body.as_slice(), 0x2F);
    let mut pattern: Vec<Vec<u8>> = Vec::new();
    let mut i: usize = 0;
    let ghost ps = bytes_seq(pieces@);
    proof {
        assert(ps.take(0) =~= Seq::<Seq<u8>>::empty());
        assert(Seq::<Seq<u8>>::empty().filter(non_empty()) =~= Seq::<Seq<u8>>::empty()) by {
            reveal(Seq::filter);
        }
    }
    while i < pieces.len()
        invariant
            i <= pieces@.len(),
            ps == bytes_seq(pieces@),
            bytes_seq(pattern@) == ps.take(i as int).filter(non_empty()),
        decreases pieces@.len() - i,
    {
        proof {
            assert(ps.take(i + 1) =~= ps.take(i as int).push(ps[i as int]));
            ps.take(i as int).lemma_filter_push(ps[i as int], non_empty());
        }
        if pieces[i].len() > 0 {
            let ghost before = bytes_seq(pattern@);
            pattern.push(pieces[i].clone());
            proof {
                assert(bytes_seq(pattern@) =~= before.push(ps[i as int]));
            }
        }
        i = i + 1;
    }
    proof {
        assert(ps.take(ps.len() as int) =~= ps);
    }
    if pattern.len() == 0 {
        return None;
    }
    Some(
        IgnoreRule {
            base: crate::resolver::copy_names(base),
            negate,
            dir_only,
            anchored,
            pattern,
        },
    )
}

/// Parse the text of an ignore file in the directory `base`.
pub fn parse_ignore_rules(text: &String, base: &Vec<String>) -> (r: Vec<IgnoreRule>)
    ensures
        rules_of(r@) == parse_rules(utf8_of(*text), utf8_seq(base@)),
{
    let lines = split_on(text.as_str().as_bytes(), 0x0A);
    let ghost ls = bytes_seq(lines@);
    let ghost bv = utf8_seq(base@);
    let mut out: Vec<IgnoreRule> = Vec::new();
    let mut i: usize = 0;
    proof {
        assert(rules_of(out@) + rules_from(ls, bv, 0) =~= rules_from(ls, bv, 0));
    }
    while i < lines.len()
        invariant
            i <= lines@.len(),
            ls == bytes_seq(lines@),
            bv == utf8_seq(base@),
            rules_of(out@) + rules_from(ls, bv, i as int) == rules_from(ls, bv, 0),
        decreases lines@.len() - i,
    {
        let ghost before = rules_of(out@);
        match rule_from_line(&lines[i], base) {
            Some(rule) => {
                let ghost rv = rule@;
                out.push(rule);
                proof {
                    assert(rules_of(out@) =~= before.push(rv));
                    assert(before + (seq![rv] + rules_from(ls, bv, i + 1)) =~= before.push(rv)
                        + rules_from(ls, bv, i + 1));
                }
            },
            None => {},
        }
        i = i + 1;
    }
    proof {
        assert(rules_of(out@) + Seq::<Rule>::empty() =~= rules_of(out@));
    }
    out
}

/// Whether `p[i..]` matches `s[j..]`.
fn glob_from(p: &[u8], i: usize, s: &[u8], j: usize) -> (r: bool)
    requires
        i <= p@.len(),
        j <= s@.len(),
    ensures
        r == glob(p@.skip(i as int), s@.skip(j as int)),
    decreases p@.len() - i + s@.len() - j,
{
    let ghost pp = p@.skip(i as int);
    let ghost ss = s@.skip(j as int);
    proof {
        if i < p.len() {
            assert(pp.drop_first() =~= p@.skip(i + 1));
            assert(pp[0] == p@[i as int]);
        }
        if j < s.len() {
            assert(ss.drop_first() =~= s@.skip(j + 1));
            assert(ss[0] == s@[j as int]);
        }
    }
    if i == p.len() {
        j == s.len()
    } else if p[i] == 0x2A {
        glob_from(p, i + 1, s, j) || (j < s.len() && glob_from(p, i, s, j + 1))
    } else if j == s.len() {
        false
    } else if p[i] == 0x3F || p[i] == s[j] {
        glob_from(p, i + 1, s, j + 1)
    } else {
        false
    }
}

/// Whether `p[i..]` matches the names `s[j..]`.
fn comps_match_from(p: &Vec<Vec<u8>>, i: usize, s: &Vec<String>, j: usize) -> (r: bool)
    requires
        i <= p@.len(),
        j <= s@.len(),
    ensures
        r == comps_match(bytes_seq(p@).skip(i as int), utf8_seq(s@).skip(j as int)),
    decreases p@.len() - i + s@.len() - j,
{
    let ghost pp = bytes_seq(p@).skip(i as int);
    let ghost ss = utf8_seq(s@).skip(j as int);
    proof {
        if i < p.len() {
            assert(pp.drop_first() =~= bytes_seq(p@).skip(i + 1));
            assert(pp[0] == p@[i as int]@);
        }
        if j < s.len() {
            assert(ss.drop_first() =~= utf8_seq(s@).skip(j + 1));
            assert(ss[0] == utf8_of(s@[j as int]));
        }
    }
    if i == p.len() {
        return j == s.len();
    }
    let piece = &p[i];
    let is_double = piece.len() == 2 && piece[0] == 0x2A && piece[1] == 0x2A;
    proof {
        let d = double_star();
        assert(d.len() == 2 && d[0] == 0x2A && d[1] == 0x2A);
        if is_double {
            assert(piece@ =~= d);
        }
    }
    if is_double {
        comps_match_from(p, i + 1, s, j) || (j < s.len() && comps_match_from(p, i, s, j + 1))
    } else if j == s.len() {
        false
    } else {
        let name = s[j].as_str().as_bytes();
        proof {
            assert(piece@.skip(0) =~= piece@);
            assert(name@.skip(0) =~= name@);
        }
        glob_from(piece.as_slice(), 0, name, 0) && comps_match_from(p, i + 1, s, j + 1)
    }
}

/// Whether a rule matches the path.
fn matches(rule: &IgnoreRule, path: &Vec<String>, is_dir: bool) -> (r: bool)
    ensures
        r == rule_matches(rule@, utf8_seq(path@), is_dir),
{
    if rule.dir_only && !is_dir {
        return false;
    }
    if path.len() <= rule.base.len() {
        return false;
    }
    let mut single: Vec<Vec<String>> = Vec::new();
    single.push(crate::resolver::copy_names(&rule.base));
    let ghost bv = utf8_seq(rule.base@);
    let ghost pv = utf8_seq(path@);
    proof {
        let one = seq![bv];
        assert(crate::paths::comps_list(single@) =~= one);
        assert(one[0] == bv);
        if is_prefix(bv, pv) {
            assert(crate::paths::is_excluded(pv, one));
        }
        if crate::paths::is_excluded(pv, one) {
            let k = choose|k: int| 0 <= k < one.len() && is_prefix(#[trigger] one[k], pv);
            assert(k == 0);
        }
    }
    if !crate::paths::excluded(path, &single) {
        return false;
    }
    if rule.anchored {
        proof {
            assert(bytes_seq(rule.pattern@).skip(0) =~= bytes_seq(rule.pattern@));
            assert(bv.len() == rule.base@.len());
        }
        comps_match_from(&rule.pattern, 0, path, rule.base.len())
    } else {
        if rule.pattern.len() == 0 {
            return false;
        }
        let name = path[path.len() - 1].as_str().as_bytes();
        let piece = &rule.pattern[0];
        proof {
            assert(piece@.skip(0) =~= piece@);
            assert(name@.skip(0) =~= name@);
            assert(pv.last() == utf8_of(path@[path@.len() - 1]));
            assert(bytes_seq(rule.pattern@)[0] == piece@);
        }
        glob_from(piece.as_slice(), 0, name, 0)
    }
}

/// Whether the rules ignore the path: the last rule that matches decides.
pub fn is_ignored(rules: &Vec<IgnoreRule>, path: &Vec<String>, is_dir: bool) -> (r: bool)
    ensures
        r == ignored_by(rules_of(rules@), utf8_seq(path@), is_dir),
{
    let ghost rs = rules_of(rules@);
    let ghost pv = utf8_seq(path@);
    let mut k = rules.len();
    proof {
        assert(rs.take(k as int) =~= rs);
    }
    while k > 0
        invariant
            k <= rules@.len(),
            rs == rules_of(rules@),
            pv == utf8_seq(path@),
            ignored_by(rs, pv, is_dir) == ignored_by(rs.take(k as int), pv, is_dir),
        decreases k,
    {
        let ghost t = rs.take(k as int);
        proof {
            assert(t.last() == rules@[k - 1]@);
            assert(t.drop_last() =~= rs.take(k - 1));
        }
        if matches(&rules[k - 1], path, is_dir) {
            return !rules[k - 1].negate;
        }
        k = k - 1;
    }
    false
}

/// The rules of `a` followed by those of `b`.
pub fn append_rules(a: &Vec<IgnoreRule>, b: Vec<IgnoreRule>) -> (r: Vec<IgnoreRule>)
    ensures
        rules_of(r@) == rules_of(a@) + rules_of(b@),
{
    let mut r: Vec<IgnoreRule> = Vec::new();
    let mut i: usize = 0;
    while i < a.len()
        invariant
            i <= a@.len(),
            rules_of(r@) == rules_of(a@).take(i as int),
        decreases a@.len() - i,
    {
        let x = &a[i];
        let ghost before = rules_of(r@);
        let copy = IgnoreRule {
            base: crate::resolver::copy_names(&x.base),
            negate: x.negate,
            dir_only: x.dir_only,
            anchored: x.anchored,
            pattern: copy_pattern(&x.pattern),
        };
        r.push(copy);
        proof {
            assert(rules_of(r@) =~= before.push(a@[i as int]@));
            assert(rules_of(a@).take(i + 1) =~= rules_of(a@).take(i as int).push(a@[i as int]@));
        }
        i = i + 1;
    }
    proof {
        assert(rules_of(a@).take(a@.len() as int) =~= rules_of(a@));
    }
    let mut rest = b;
    let ghost orig = b@;
    let ghost mut j: int = 0;
    proof {
        assert(rest@ =~= orig.subrange(0, orig.len() as int));
        assert(rules_of(orig).take(0) =~= Seq::<Rule>::empty());
        assert(rules_of(r@) =~= rules_of(a@) + rules_of(orig).take(0));
    }
    while rest.len() > 0
        invariant
            0 <= j <= orig.len(),
            rest@ == orig.subrange(j, orig.len() as int),
            rules_of(r@) == rules_of(a@) + rules_of(orig).take(j),
        decreases rest@.len(),
    {
        let x = rest.remove(0);
        let ghost before = rules_of(r@);
        proof {
            assert(x == orig[j]);
        }
        r.push(x);
        proof {
            assert(rules_of(orig).take(j + 1) =~= rules_of(orig).take(j).push(orig[j]@));
            assert(rules_of(r@) =~= before.push(orig[j]@));
            j = j + 1;
            assert(rest@ =~= orig.subrange(j, orig.len() as int));
        }
    }
    proof {
        assert(rules_of(orig).take(orig.len() as int) =~= rules_of(orig));
    }
    r
}

fn copy_pattern(p: &Vec<Vec<u8>>) -> (r: Vec<Vec<u8>>)
    ensures
        bytes_seq(r@) == bytes_seq(p@),
{
    let mut r: Vec<Vec<u8>> = Vec::new();
    let mut i: usize = 0;
    while i < p.len()
        invariant
            i <= p@.len(),
            bytes_seq(r@) == bytes_seq(p@).take(i as int),
        decreases p@.len() - i,
    {
        let ghost before = bytes_seq(r@);
        r.push(p[i].clone());
        proof {
            assert(bytes_seq(r@) =~= before.push(p@[i as int]@));
            assert(bytes_seq(p@).take(i + 1) =~= bytes_seq(p@).take(i as int).push(p@[i as int]@));
        }
        i = i + 1;
    }
    proof {
        assert(bytes_seq(p@).take(p@.len() as int) =~= bytes_seq(p@));
    }
    r
}

/// Text without the separator is one piece.
proof fn lemma_split_bytes_whole(t: Seq<u8>, sep: u8)
    requires
        forall|k: int| 0 <= k < t.len() ==> t[k] != sep,
    ensures
        split_bytes(t, sep) == seq![t],
    decreases t.len(),
{
    if t.len() > 0 {
        let init = t.drop_last();
        lemma_split_bytes_whole(init, sep);
        assert(init.push(t.last()) =~= t);
        assert(t.last() != sep);
        assert(split_bytes(init, sep).last() == init);
        assert(seq![init].update(0, init.push(t.last())) =~= seq![t]);
    } else {
        assert(t =~= Seq::<u8>::empty());
    }
}

/// A pattern without `*` matches its own text.
proof fn lemma_glob_self(p: Seq<u8>)
    requires
        forall|k: int| 0 <= k < p.len() ==> p[k] != 0x2A,
    ensures
        glob(p, p),
    decreases p.len(),
{
    if p.len() > 0 {
        lemma_glob_self(p.drop_first());
    }
}

/// A line `p/`, where `p` holds no `/`, is not anchored by its trailing
/// slash: the rule it states ignores every directory named `p` at any depth
/// below the directory of its file, and nothing that is not a directory.
pub proof fn law_trailing_slash_does_not_anchor(
    l: Seq<u8>,
    base: Seq<Seq<u8>>,
    q: Seq<Seq<u8>>,
)
    requires
        l.len() > 0,
        l[0] != 0x23,
        l[0] != 0x21,
        forall|k: int| 0 <= k < l.len() ==> l[k] != 0x2F && l[k] != 0x0A && l[k] != 0x2A,
    ensures
        parse_rules(l.push(0x2F), base) == seq![
            Rule { base, negate: false, dir_only: true, anchored: false, pattern: seq![l] },
        ],
        ignored_by(parse_rules(l.push(0x2F), base), base + q + seq![l], true),
        !ignored_by(parse_rules(l.push(0x2F), base), base + q + seq![l], false),
{
    broadcast use vstd::seq_lib::group_filter_ensures;

    let line = l.push(0x2F);
    assert forall|k: int| 0 <= k < line.len() implies line[k] != 0x0A by {
        if k < l.len() {
            assert(line[k] == l[k]);
        }
    }
    lemma_split_bytes_whole(line, 0x0A);
    assert(trim_line(line) == line);
    assert(line.drop_last() =~= l);
    assert(!l.contains(0x2Fu8));
    lemma_split_bytes_whole(l, 0x2F);
    let pieces = seq![l];
    let kept = pieces.filter(non_empty());
    assert(pieces[0] == l);
    pieces.lemma_filter_contains(non_empty(), 0);
    assert(kept.len() == 1);
    let x = choose|x: int| 0 <= x < kept.len() && kept[x] == l;
    assert(kept =~= seq![l]);
    let r = Rule { base, negate: false, dir_only: true, anchored: false, pattern: seq![l] };
    assert(rule_of_line(line, base) == Some(r));
    assert(rules_from(seq![line], base, 1) =~= Seq::<Rule>::empty());
    assert(rules_from(seq![line], base, 0) =~= seq![r]);
    let path = base + q + seq![l];
    assert(path.take(base.len() as int) =~= base);
    assert(path.last() == l);
    lemma_glob_self(l);
    assert(rule_matches(r, path, true));
    assert(seq![r].last() == r);
    assert(seq![r].drop_last() =~= Seq::<Rule>::empty());
    assert(parse_rules(line, base) == seq![r]);
    assert(!rule_matches(r, path, false));
    assert(!ignored_by(Seq::<Rule>::empty(), path, false));
    assert(!ignored_by(seq![r], path, false));
}

/// Writing a `/` after a line only restricts its rule to directories: the
/// rule keeps its base, its negation, its pattern and whether it is
/// anchored, and one line states a rule exactly when the other does.
pub proof fn law_trailing_slash_only_restricts_to_directories(l: Seq<u8>, base: Seq<Seq<u8>>)
    requires
        l.len() > 0,
        l.last() != 0x2F,
        trim_line(l) == l,
    ensures
        rule_of_line(l.push(0x2F), base) is Some == rule_of_line(l, base) is Some,
        rule_of_line(l, base) is Some ==> ({
            let a = rule_of_line(l, base)->Some_0;
            let b = rule_of_line(l.push(0x2F), base)->Some_0;
            &&& b.dir_only
            &&& !a.dir_only
            &&& b.base == a.base
            &&& b.negate == a.negate
            &&& b.anchored == a.anchored
            &&& b.pattern == a.pattern
        }),
{
    let line = l.push(0x2F);
    assert(trim_line(line) == line);
    assert(line[0] == l[0]);
    assert(line.drop_last() =~= l);
    if l[0] == 0x21 {
        assert(line.drop_first() =~= l.drop_first().push(0x2F));
        assert(line.drop_first().drop_last() =~= l.drop_first());
        if l.drop_first().len() > 0 {
            assert(l.drop_first().last() == l.last());
        }
    }
}

} // verus!
