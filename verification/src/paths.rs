//! Relative manifest paths: their components, how they join onto a
//! directory, the order of names, and exclusion by prefix.

use vstd::prelude::*;
use vstd::utf8::*;
use vstd::string::*;
use crate::manifest::utf8_of;
use crate::text::{lemma_encode_ascii, substring};

verus! {



/// The UTF-8 bytes of each string of a sequence.
pub open spec fn utf8_seq(v: Seq<String>) -> Seq<Seq<u8>> {
    Seq::new(v.len(), |i: int| utf8_of(v[i]))
}

/// The pieces of a path between its `/` separators, empty pieces included.
pub open spec fn split_slash(p: Seq<u8>) -> Seq<Seq<u8>>
    decreases p.len(),
{
    if p.len() == 0 {
        seq![seq![]]
    } else {
        let init = split_slash(p.drop_last());
        if p.last() == 0x2F {
            init.push(seq![])
        } else {
            init.update(init.len() - 1, init.last().push(p.last()))
        }
    }
}

/// A piece that names an entry: neither empty nor `.`.
pub open spec fn is_normal_piece(q: Seq<u8>) -> bool {
    q.len() > 0 && q != seq![0x2Eu8]
}

pub open spec fn normal_piece() -> spec_fn(Seq<u8>) -> bool {
    |q: Seq<u8>| is_normal_piece(q)
}

/// The piece `..`.
pub open spec fn is_parent_piece(q: Seq<u8>) -> bool {
    q == seq![0x2Eu8, 0x2Eu8]
}

/// The normalized components of a manifest path, or `None` when the path is
/// absolute, climbs out with `..`, or names nothing.
pub open spec fn relative_components(p: Seq<u8>) -> Option<Seq<Seq<u8>>> {
    let pieces = split_slash(p);
    if (p.len() > 0 && p[0] == 0x2F) || (exists|i: int|
        0 <= i < pieces.len() && is_parent_piece(#[trigger] pieces[i])) {
        None
    } else {
        let c = pieces.filter(normal_piece());
        if c.len() == 0 {
            None
        } else {
            Some(c)
        }
    }
}

/// A name that stands for one entry: not empty, not `.` or `..`, and
/// without `/`.
pub open spec fn is_normal_name(q: Seq<u8>) -> bool {
    &&& is_normal_piece(q)
    &&& !is_parent_piece(q)
    &&& forall|k: int| 0 <= k < q.len() ==> #[trigger] q[k] != 0x2F
}

proof fn lemma_split_slash_pieces(p: Seq<u8>)
    ensures
        split_slash(p).len() >= 1,
        forall|i: int, k: int|
            0 <= i < split_slash(p).len() && 0 <= k < split_slash(p)[i].len() ==> #[trigger] split_slash(
                p,
            )[i][k] != 0x2F,
    decreases p.len(),
{
    if p.len() > 0 {
        lemma_split_slash_pieces(p.drop_last());
        let init = split_slash(p.drop_last());
        let s = split_slash(p);
        if p.last() != 0x2F {
            assert forall|i: int, k: int| 0 <= i < s.len() && 0 <= k < s[i].len() implies #[trigger] s[i][k]
                != 0x2F by {
                if i == s.len() - 1 {
                    if k < init.last().len() {
                        assert(s[i][k] == init[i][k]);
                    }
                } else {
                    assert(s[i] == init[i]);
                }
            }
        } else {
            assert forall|i: int, k: int| 0 <= i < s.len() && 0 <= k < s[i].len() implies #[trigger] s[i][k]
                != 0x2F by {
                if i < init.len() {
                    assert(s[i] == init[i]);
                }
            }
        }
    }
}

/// The components of a valid manifest path name one entry each.
pub proof fn lemma_relative_components_normal(p: Seq<u8>)
    ensures
        relative_components(p) matches Some(c) ==> forall|i: int|
            0 <= i < c.len() ==> is_normal_name(#[trigger] c[i]),
{
    broadcast use vstd::seq_lib::group_filter_ensures;

    let pieces = split_slash(p);
    lemma_split_slash_pieces(p);
    if relative_components(p) is Some {
        let c = pieces.filter(normal_piece());
        assert forall|i: int| 0 <= i < c.len() implies is_normal_name(#[trigger] c[i]) by {
            pieces.lemma_filter_pred(normal_piece(), i);
            assert(c.contains(c[i]));
            pieces.lemma_filter_contains_rev(normal_piece(), c[i]);
            let j = choose|j: int| 0 <= j < pieces.len() && pieces[j] == c[i];
            assert(!is_parent_piece(pieces[j]));
            assert forall|k: int| 0 <= k < c[i].len() implies #[trigger] c[i][k] != 0x2F by {
                assert(pieces[j][k] != 0x2F);
            }
        }
    }
}

/// The path of `name` inside directory `dir`.
pub open spec fn join_path(dir: Seq<u8>, name: Seq<u8>) -> Seq<u8> {
    if dir.len() == 0 {
        name
    } else if dir.last() == 0x2F {
        dir + name
    } else {
        dir + seq![0x2Fu8] + name
    }
}

/// The path reached from `dir` through the components `comps`.
pub open spec fn join_all(dir: Seq<u8>, comps: Seq<Seq<u8>>) -> Seq<u8>
    decreases comps.len(),
{
    if comps.len() == 0 {
        dir
    } else {
        join_all(join_path(dir, comps[0]), comps.drop_first())
    }
}

/// Lexicographic byte order of names: the order in which entries are kept.
pub open spec fn bytes_lt(a: Seq<u8>, b: Seq<u8>) -> bool
    decreases a.len(),
{
    if b.len() == 0 {
        false
    } else if a.len() == 0 {
        true
    } else if a[0] != b[0] {
        a[0] < b[0]
    } else {
        bytes_lt(a.drop_first(), b.drop_first())
    }
}

/// Whether `prefix` is a component-wise prefix of `comps`.
pub open spec fn is_prefix(prefix: Seq<Seq<u8>>, comps: Seq<Seq<u8>>) -> bool {
    prefix.len() <= comps.len() && comps.take(prefix.len() as int) == prefix
}

/// Whether some exclusion is a prefix of the components.
pub open spec fn is_excluded(comps: Seq<Seq<u8>>, exclusions: Seq<Seq<Seq<u8>>>) -> bool {
    exists|i: int| 0 <= i < exclusions.len() && is_prefix(#[trigger] exclusions[i], comps)
}

pub proof fn lemma_encode_utf8_add(a: Seq<char>, b: Seq<char>)
    ensures
        encode_utf8(a + b) == encode_utf8(a) + encode_utf8(b),
    decreases a.len(),
{
    if a.len() == 0 {
        assert(a + b =~= b);
    } else {
        assert((a + b).drop_first() =~= a.drop_first() + b);
        assert((a + b)[0] == a[0]);
        lemma_encode_utf8_add(a.drop_first(), b);
    }
}

pub proof fn lemma_split_slash_nonempty(p: Seq<u8>)
    ensures
        split_slash(p).len() >= 1,
    decreases p.len(),
{
    if p.len() > 0 {
        lemma_split_slash_nonempty(p.drop_last());
    }
}

pub proof fn lemma_split_slash_prefix(p: Seq<u8>, k: int)
    requires
        0 <= k <= p.len(),
    ensures
        split_slash(p.take(k)).len() <= split_slash(p).len(),
        forall|i: int|
            0 <= i < split_slash(p.take(k)).len() - 1 ==> #[trigger] split_slash(p)[i] == split_slash(
                p.take(k),
            )[i],
    decreases p.len(),
{
    if k == p.len() {
        assert(p.take(k) =~= p);
    } else {
        assert(p.take(k) =~= p.drop_last().take(k));
        lemma_split_slash_prefix(p.drop_last(), k);
        lemma_split_slash_nonempty(p.drop_last());
    }
}

pub proof fn lemma_split_slash_step(p: Seq<u8>, k: int)
    requires
        0 <= k < p.len(),
    ensures
        split_slash(p.take(k + 1)) == if p[k] == 0x2F {
            split_slash(p.take(k)).push(seq![])
        } else {
            split_slash(p.take(k)).update(
                split_slash(p.take(k)).len() - 1,
                split_slash(p.take(k)).last().push(p[k]),
            )
        },
{
    assert(p.take(k + 1).drop_last() =~= p.take(k));
    assert(p.take(k + 1).last() == p[k]);
}

/// Classifies the piece `b[start..end]`: whether it names an entry, and
/// whether it is `..`.
fn classify_piece(b: &[u8], start: usize, end: usize) -> (r: (bool, bool))
    requires
        start <= end <= b@.len(),
    ensures
        r.0 == is_normal_piece(b@.subrange(start as int, end as int)),
        r.1 == is_parent_piece(b@.subrange(start as int, end as int)),
{
    let ghost q = b@.subrange(start as int, end as int);
    let len = end - start;
    let parent = len == 2 && b[start] == 0x2E && b[start + 1] == 0x2E;
    let normal = len > 0 && !(len == 1 && b[start] == 0x2E);
    proof {
        let d1 = seq![0x2Eu8];
        let d2 = seq![0x2Eu8, 0x2Eu8];
        assert(d1.len() == 1 && d1[0] == 0x2E);
        assert(d2.len() == 2 && d2[0] == 0x2E && d2[1] == 0x2E);
        if len >= 1 {
            assert(q[0] == b@[start as int]);
        }
        if len >= 2 {
            assert(q[1] == b@[start + 1]);
        }
        if len == 1 && b@[start as int] == 0x2E {
            assert(q =~= d1);
        }
        if parent {
            assert(q =~= d2);
        }
    }
    (normal, parent)
}

/// The normalized components of a manifest path.
pub fn relative_path_components(path: &String) -> (r: Option<Vec<String>>)
    ensures
        match (r, relative_components(utf8_of(*path))) {
            (Some(v), Some(c)) => utf8_seq(v@) == c,
            (None, None) => true,
            _ => false,
        },
{
    let s = path.as_str();
    let b = s.as_bytes();
    let ghost p = b@;
    assert(p == utf8_of(*path));
    if b.len() > 0 && b[0] == 0x2F {
        return None;
    }
    let mut comps: Vec<String> = Vec::new();
    let ghost mut done: Seq<Seq<u8>> = seq![];
    let mut start: usize = 0;
    let mut k: usize = 0;
    proof {
        assert(p.take(0) =~= seq![]);
        assert(p.subrange(0, 0) =~= seq![]);
        assert(done + seq![p.subrange(0, 0)] =~= seq![seq![]]);
    }
    while k < b.len()
        invariant
            p == b@,
            p == s.spec_bytes(),
            p == utf8_of(*path),
            !(p.len() > 0 && p[0] == 0x2F),
            0 <= start <= k <= p.len(),
            start == 0 || p[start - 1] == 0x2F,
            split_slash(p.take(k as int)) == done + seq![p.subrange(start as int, k as int)],
            utf8_seq(comps@) == done.filter(normal_piece()),
            forall|i: int| 0 <= i < done.len() ==> !is_parent_piece(#[trigger] done[i]),
        decreases p.len() - k,
    {
        proof {
            lemma_split_slash_step(p, k as int);
        }
        let ghost q = p.subrange(start as int, k as int);
        if b[k] == 0x2F {
            let (normal, parent) = classify_piece(b, start, k);
            if parent {
                proof {
                    let t = split_slash(p.take(k + 1));
                    assert(done + seq![q] =~= done.push(q));
                    assert(t == done.push(q).push(seq![]));
                    assert(t.len() == done.len() + 2);
                    assert(t[done.len() as int] == q);
                    lemma_split_slash_prefix(p, k + 1);
                    let pieces = split_slash(p);
                    assert(pieces[done.len() as int] == t[done.len() as int]);
                    assert(is_parent_piece(pieces[done.len() as int]));
                    assert(relative_components(p) is None);
                }
                return None;
            }
            proof {
                done.lemma_filter_push(q, normal_piece());
            }
            if normal {
                let piece = substring(s, start, k);
                comps.push(piece);
                proof {
                    assert(utf8_seq(comps@) =~= done.filter(normal_piece()).push(q));
                }
            }
            proof {
                let old_done = done;
                done = done.push(q);
                assert(forall|i: int| 0 <= i < old_done.len() ==> done[i] == old_done[i]);
                assert(p.subrange(k + 1, k + 1) =~= seq![]);
                assert(done + seq![p.subrange(k + 1, k + 1)] =~= old_done.push(q).push(seq![]));
            }
            start = k + 1;
        } else {
            proof {
                assert(p.subrange(start as int, k + 1) =~= q.push(p[k as int]));
                assert(done + seq![p.subrange(start as int, k + 1)] =~= (done + seq![q]).update(
                    done.len() as int,
                    q.push(p[k as int]),
                ));
            }
        }
        k = k + 1;
    }
    let ghost q = p.subrange(start as int, p.len() as int);
    proof {
        assert(p.take(p.len() as int) =~= p);
        assert(split_slash(p) == done + seq![q]);
        let pieces = split_slash(p);
        assert(forall|i: int| 0 <= i < done.len() ==> pieces[i] == done[i]);
        assert(pieces[done.len() as int] == q);
    }
    let (normal, parent) = classify_piece(b, start, b.len());
    if parent {
        proof {
            assert(is_parent_piece(split_slash(p)[done.len() as int]));
        }
        return None;
    }
    proof {
        done.lemma_filter_push(q, normal_piece());
        assert(done.push(q) == done + seq![q]);
        assert(forall|i: int|
            0 <= i < split_slash(p).len() ==> !is_parent_piece(#[trigger] split_slash(p)[i]));
    }
    if normal {
        let piece = substring(s, start, b.len());
        comps.push(piece);
        proof {
            assert(utf8_seq(comps@) =~= done.filter(normal_piece()).push(q));
        }
    }
    if comps.len() == 0 {
        None
    } else {
        Some(comps)
    }
}

pub proof fn lemma_utf8_of_injective(a: String, b: String)
    ensures
        (utf8_of(a) == utf8_of(b)) == (a@ == b@),
{
    encode_utf8_decode_utf8(a@);
    encode_utf8_decode_utf8(b@);
}

/// The encoding of ASCII characters is their codes.
pub proof fn lemma_encode_ascii_seq(s: Seq<char>)
    requires
        forall|i: int| 0 <= i < s.len() ==> (#[trigger] s[i] as u32) < 0x80,
    ensures
        encode_utf8(s) == Seq::new(s.len(), |i: int| (s[i] as u32) as u8),
    decreases s.len(),
{
    if s.len() > 0 {
        lemma_encode_ascii_seq(s.drop_first());
        lemma_encode_ascii(s[0]);
        assert(s =~= seq![s[0]] + s.drop_first());
        lemma_encode_utf8_add(seq![s[0]], s.drop_first());
        assert(encode_utf8(s) =~= Seq::new(s.len(), |i: int| (s[i] as u32) as u8));
    }
}

/// Whether two strings are equal, as UTF-8 bytes.
pub fn same_name(a: &String, b: &String) -> (r: bool)
    ensures
        r == (utf8_of(*a) == utf8_of(*b)),
{
    proof {
        lemma_utf8_of_injective(*a, *b);
    }
    *a == *b
}

/// The path of `name` inside directory `dir`.
pub fn join(dir: &String, name: &String) -> (r: String)
    ensures
        utf8_of(r) == join_path(utf8_of(*dir), utf8_of(*name)),
{
    let db = dir.as_str().as_bytes();
    let mut r = dir.clone();
    proof {
        assert(db@ == utf8_of(*dir));
        if dir@.len() > 0 {
            assert(dir@ =~= seq![dir@[0]] + dir@.drop_first());
            lemma_encode_utf8_add(seq![dir@[0]], dir@.drop_first());
        }
    }
    if db.len() > 0 && db[db.len() - 1] != 0x2F {
        let ghost before = r@;
        r.append("/");
        proof {
            reveal_strlit("/");
            assert("/"@ == seq!['/']);
            lemma_encode_utf8_add(before, "/"@);
            lemma_encode_ascii('/');
        }
    }
    let ghost before = r@;
    r.append(name.as_str());
    proof {
        lemma_encode_utf8_add(before, name@);
    }
    r
}

/// Whether `a` comes before `b` in byte order.
pub fn name_lt(a: &String, b: &String) -> (r: bool)
    ensures
        r == bytes_lt(utf8_of(*a), utf8_of(*b)),
{
    let x = a.as_str().as_bytes();
    let y = b.as_str().as_bytes();
    let mut i: usize = 0;
    proof {
        assert(x@.skip(0) =~= x@);
        assert(y@.skip(0) =~= y@);
    }
    while i < x.len() && i < y.len() && x[i] == y[i]
        invariant
            i <= x@.len(),
            i <= y@.len(),
            x@ == utf8_of(*a),
            y@ == utf8_of(*b),
            bytes_lt(x@, y@) == bytes_lt(x@.skip(i as int), y@.skip(i as int)),
        decreases x@.len() - i,
    {
        proof {
            assert(x@.skip(i as int).drop_first() =~= x@.skip(i + 1));
            assert(y@.skip(i as int).drop_first() =~= y@.skip(i + 1));
        }
        i = i + 1;
    }
    if i >= y.len() {
        false
    } else if i >= x.len() {
        true
    } else {
        x[i] < y[i]
    }
}

/// The components of each of a list of paths.
pub open spec fn comps_list(ex: Seq<Vec<String>>) -> Seq<Seq<Seq<u8>>> {
    Seq::new(ex.len(), |i: int| utf8_seq(ex[i]@))
}

/// Whether some exclusion is a prefix of the components.
pub fn excluded(comps: &Vec<String>, exclusions: &Vec<Vec<String>>) -> (r: bool)
    ensures
        r == is_excluded(utf8_seq(comps@), comps_list(exclusions@)),
{
    let ghost c = utf8_seq(comps@);
    let ghost ex = comps_list(exclusions@);
    let mut i: usize = 0;
    while i < exclusions.len()
        invariant
            i <= exclusions.len(),
            c == utf8_seq(comps@),
            ex == comps_list(exclusions@),
            forall|j: int| 0 <= j < i ==> !is_prefix(#[trigger] ex[j], c),
        decreases exclusions.len() - i,
    {
        let e = &exclusions[i];
        let mut prefix = e.len() <= comps.len();
        let mut k: usize = 0;
        while prefix && k < e.len()
            invariant
                k <= e.len(),
                prefix ==> e.len() <= comps.len(),
                e == exclusions@[i as int],
                c == utf8_seq(comps@),
                prefix ==> forall|j: int| 0 <= j < k ==> utf8_of(#[trigger] e@[j]) == utf8_of(comps@[j]),
                !prefix ==> !is_prefix(utf8_seq(e@), c),
            decreases e.len() - k + (if prefix { 1int } else { 0int }),
        {
            if !same_name(&e[k], &comps[k]) {
                proof {
                    assert(utf8_seq(e@)[k as int] != c.take(e.len() as int)[k as int]);
                }
                prefix = false;
            } else {
                k = k + 1;
            }
        }
        if prefix {
            proof {
                assert(c.take(e.len() as int) =~= utf8_seq(e@));
                assert(is_prefix(ex[i as int], c));
            }
            return true;
        }
        proof {
            if e.len() > comps.len() {
                assert(!is_prefix(utf8_seq(e@), c));
            }
        }
        i = i + 1;
    }
    false
}

/// The bytes after the last `/` of a path: the name of the entry it leads to.
pub open spec fn last_component(p: Seq<u8>) -> Seq<u8>
    decreases p.len(),
{
    if p.len() == 0 || p.last() == 0x2F {
        seq![]
    } else {
        last_component(p.drop_last()).push(p.last())
    }
}

/// The last component of a path.
pub fn file_name(path: &String) -> (r: String)
    ensures
        utf8_of(r) == last_component(utf8_of(*path)),
{
    let s = path.as_str();
    let b = s.as_bytes();
    let ghost p = b@;
    let mut k = b.len();
    proof {
        assert(p.subrange(k as int, p.len() as int) =~= seq![]);
    }
    while k > 0 && b[k - 1] != 0x2F
        invariant
            k <= p.len(),
            p == b@,
            p == s.spec_bytes(),
            forall|j: int| k <= j < p.len() ==> p[j] != 0x2F,
        decreases k,
    {
        k = k - 1;
    }
    proof {
        lemma_last_component_tail(p, k as int);
    }
    substring(s, k, b.len())
}

/// When no `/` follows position `k`, and `k` starts the text or follows a
/// `/`, the last component is everything from `k` on.
pub proof fn lemma_last_component_tail(p: Seq<u8>, k: int)
    requires
        0 <= k <= p.len(),
        forall|j: int| k <= j < p.len() ==> p[j] != 0x2F,
        k == 0 || p[k - 1] == 0x2F,
    ensures
        last_component(p) == p.subrange(k, p.len() as int),
    decreases p.len(),
{
    if p.len() == k {
        assert(p.subrange(k, p.len() as int) =~= seq![]);
        if p.len() > 0 {
            assert(p.last() == 0x2F);
        }
    } else {
        lemma_last_component_tail(p.drop_last(), k);
        assert(p.subrange(k, p.len() as int) =~= p.drop_last().subrange(k, p.len() - 1).push(p.last()));
    }
}

/// The pieces of a path between its `/` separators.
pub fn split_path(path: &String) -> (r: Vec<String>)
    ensures
        utf8_seq(r@) == split_slash(utf8_of(*path)),
{
    let s = path.as_str();
    let b = s.as_bytes();
    let ghost p = b@;
    let mut pieces: Vec<String> = Vec::new();
    let mut start: usize = 0;
    let mut k: usize = 0;
    proof {
        assert(p.take(0) =~= seq![]);
        assert(p.subrange(0, 0) =~= seq![]);
        assert(utf8_seq(pieces@) + seq![p.subrange(0, 0)] =~= seq![seq![]]);
    }
    while k < b.len()
        invariant
            p == b@,
            p == s.spec_bytes(),
            p == utf8_of(*path),
            0 <= start <= k <= p.len(),
            start == 0 || p[start - 1] == 0x2F,
            split_slash(p.take(k as int)) == utf8_seq(pieces@) + seq![p.subrange(start as int, k as int)],
        decreases p.len() - k,
    {
        proof {
            lemma_split_slash_step(p, k as int);
        }
        let ghost q = p.subrange(start as int, k as int);
        if b[k] == 0x2F {
            let ghost before = utf8_seq(pieces@);
            let piece = substring(s, start, k);
            pieces.push(piece);
            proof {
                assert(utf8_seq(pieces@) =~= before.push(q));
                assert(p.subrange(k + 1, k + 1) =~= seq![]);
                assert(utf8_seq(pieces@) + seq![p.subrange(k + 1, k + 1)] =~= (before + seq![q]).push(
                    seq![],
                ));
            }
            start = k + 1;
        } else {
            proof {
                assert(p.subrange(start as int, k + 1) =~= q.push(p[k as int]));
                assert(utf8_seq(pieces@) + seq![p.subrange(start as int, k + 1)] =~= (utf8_seq(pieces@)
                    + seq![q]).update(utf8_seq(pieces@).len() as int, q.push(p[k as int])));
            }
        }
        k = k + 1;
    }
    let ghost before = utf8_seq(pieces@);
    let piece = substring(s, start, b.len());
    pieces.push(piece);
    proof {
        assert(p.take(p.len() as int) =~= p);
        assert(utf8_seq(pieces@) =~= before + seq![p.subrange(start as int, p.len() as int)]);
    }
    pieces
}

} // verus!
