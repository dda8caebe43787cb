//! A partial snapshot of a filesystem: what has been learned so far about
//! the paths below a resolution root. Facts that are not known yet are
//! `Unknown`; the resolver asks for them and the caller records the answers.

use vstd::prelude::*;
use crate::manifest::utf8_of;
use crate::paths::{same_name, utf8_seq};

verus! {

/// The kind of a resolved filesystem entry.
#[derive(Debug, Clone, Copy, PartialEq, Eq, Structural)]
pub enum ResolvedEntryKind {
    File,
    Directory,
    Symlink,
    Other,
}

/// What is known of one fact about the filesystem.
#[derive(Debug)]
pub enum Probe<T> {
    /// The fact has not been looked up yet.
    Unknown,
    /// Looking it up failed, with this message.
    Failed(String),
    /// The fact.
    Known(T),
}

/// What is known about one path. `stat` is the kind of the entry at the path
/// without following a final symbolic link (`None` when nothing is there);
/// `listing` holds the names that reading the path as a directory gave;
/// `ignore_file` holds the text of the `.gitignore` file in that directory
/// (`None` when there is none).
#[derive(Debug)]
pub struct FsNode {
    pub stat: Probe<Option<ResolvedEntryKind>>,
    pub listing: Probe<Vec<String>>,
    pub ignore_file: Probe<Option<String>>,
    pub children: Vec<FsChild>,
}

/// What is known about the path of `name` inside a directory.
#[derive(Debug)]
pub struct FsChild {
    pub name: String,
    pub node: FsNode,
}

/// The index of the first child from `i` on with the given name, or -1.
pub open spec fn child_index_from(cs: Seq<FsChild>, name: Seq<u8>, i: int) -> int
    decreases cs.len() - i,
{
    if i < 0 || i >= cs.len() {
        -1
    } else if utf8_of(cs[i].name) == name {
        i
    } else {
        child_index_from(cs, name, i + 1)
    }
}

/// The index of the child of `n` with the given name, or -1.
pub open spec fn child_index(n: FsNode, name: Seq<u8>) -> int {
    child_index_from(n.children@, name, 0)
}

pub proof fn lemma_child_index_from(cs: Seq<FsChild>, name: Seq<u8>, i: int)
    requires
        0 <= i,
    ensures
        child_index_from(cs, name, i) == -1 || (i <= child_index_from(cs, name, i) < cs.len()
            && utf8_of(cs[child_index_from(cs, name, i)].name) == name),
        child_index_from(cs, name, i) == -1 ==> forall|j: int|
            i <= j < cs.len() ==> utf8_of(#[trigger] cs[j].name) != name,
    decreases cs.len() - i,
{
    if i < cs.len() && utf8_of(cs[i].name) != name {
        lemma_child_index_from(cs, name, i + 1);
    }
}

/// Child indices depend on the names of the children alone.
pub proof fn lemma_child_index_same_names(cs: Seq<FsChild>, ds: Seq<FsChild>, name: Seq<u8>, i: int)
    requires
        0 <= i,
        cs.len() == ds.len(),
        forall|j: int| 0 <= j < cs.len() ==> #[trigger] cs[j].name == ds[j].name,
    ensures
        child_index_from(cs, name, i) == child_index_from(ds, name, i),
    decreases cs.len() - i,
{
    if i < cs.len() {
        lemma_child_index_from(cs, name, i);
        lemma_child_index_same_names(cs, ds, name, i + 1);
    }
}

/// What is known about the path reached from `n` through `comps`.
pub open spec fn node_at(n: FsNode, comps: Seq<Seq<u8>>) -> Option<FsNode>
    decreases comps.len(),
{
    if comps.len() == 0 {
        Some(n)
    } else {
        let i = child_index(n, comps[0]);
        if 0 <= i < n.children.len() {
            node_at(n.children@[i].node, comps.drop_first())
        } else {
            None
        }
    }
}

/// The entry kind at the path reached through `comps`, as far as known.
pub open spec fn stat_at(n: FsNode, comps: Seq<Seq<u8>>) -> Probe<Option<ResolvedEntryKind>> {
    match node_at(n, comps) {
        Some(m) => m.stat,
        None => Probe::Unknown,
    }
}

/// The listing of the path reached through `comps`, as far as known.
pub open spec fn listing_at(n: FsNode, comps: Seq<Seq<u8>>) -> Probe<Vec<String>> {
    match node_at(n, comps) {
        Some(m) => m.listing,
        None => Probe::Unknown,
    }
}

/// The `.gitignore` text of the directory reached through `comps`, as far as
/// known.
pub open spec fn ignore_at(n: FsNode, comps: Seq<Seq<u8>>) -> Probe<Option<String>> {
    match node_at(n, comps) {
        Some(m) => m.ignore_file,
        None => Probe::Unknown,
    }
}

impl FsNode {
    /// A node about which nothing is known.
    pub fn unknown() -> (r: FsNode)
        ensures
            r.stat is Unknown,
            r.listing is Unknown,
            r.ignore_file is Unknown,
            r.children@.len() == 0,
    {
        FsNode {
            stat: Probe::Unknown,
            listing: Probe::Unknown,
            ignore_file: Probe::Unknown,
            children: Vec::new(),
        }
    }
}

/// The index of the child with the given name.
pub fn find_child(n: &FsNode, name: &String) -> (r: Option<usize>)
    ensures
        match r {
            Some(i) => i == child_index(*n, utf8_of(*name)) && i < n.children@.len(),
            None => child_index(*n, utf8_of(*name)) == -1,
        },
{
    let mut i: usize = 0;
    while i < n.children.len()
        invariant
            i <= n.children@.len(),
            child_index(*n, utf8_of(*name)) == child_index_from(n.children@, utf8_of(*name), i as int),
        decreases n.children@.len() - i,
    {
        if same_name(&n.children[i].name, name) {
            return Some(i);
        }
        i = i + 1;
    }
    None
}

/// What is known about the path reached from `n` through `path[k..]`.
pub fn find_node<'a>(n: &'a FsNode, path: &Vec<String>, k: usize) -> (r: Option<&'a FsNode>)
    requires
        k <= path.len(),
    ensures
        match (r, node_at(*n, utf8_seq(path@).skip(k as int))) {
            (Some(m), Some(m2)) => *m == m2,
            (None, None) => true,
            _ => false,
        },
    decreases path.len() - k,
{
    let ghost comps = utf8_seq(path@).skip(k as int);
    if k == path.len() {
        return Some(n);
    }
    proof {
        assert(comps[0] == utf8_of(path@[k as int]));
        assert(comps.drop_first() =~= utf8_seq(path@).skip(k + 1));
    }
    match find_child(n, &path[k]) {
        Some(i) => find_node(&n.children[i].node, path, k + 1),
        None => None,
    }
}

/// A description that knows nothing yet.
pub open spec fn knows_nothing(n: FsNode) -> bool {
    n.stat is Unknown && n.listing is Unknown && n.ignore_file is Unknown && n.children@.len() == 0
}

proof fn lemma_knows_nothing_anywhere(n: FsNode, q: Seq<Seq<u8>>)
    requires
        knows_nothing(n),
    ensures
        stat_at(n, q) is Unknown,
        listing_at(n, q) is Unknown,
        ignore_at(n, q) is Unknown,
{
}

proof fn lemma_child_index_push(cs: Seq<FsChild>, x: FsChild, name: Seq<u8>, j: int)
    requires
        0 <= j <= cs.len(),
    ensures
        child_index_from(cs.push(x), name, j) == if child_index_from(cs, name, j) != -1 {
            child_index_from(cs, name, j)
        } else if utf8_of(x.name) == name {
            cs.len() as int
        } else {
            -1
        },
    decreases cs.len() - j,
{
    let ds = cs.push(x);
    if j < cs.len() {
        assert(ds[j] == cs[j]);
        lemma_child_index_push(cs, x, name, j + 1);
    } else {
        assert(ds[j] == x);
        assert(child_index_from(ds, name, j + 1) == -1);
    }
}

/// Whether two descriptions record the same facts at every path.
pub open spec fn same_facts(a: FsNode, b: FsNode) -> bool {
    forall|q: Seq<Seq<u8>>|
        stat_at(a, q) == stat_at(b, q) && listing_at(a, q) == listing_at(b, q) && ignore_at(a, q)
            == ignore_at(b, q)
}

/// Adding a child that knows nothing, under a new name, records nothing new.
proof fn lemma_push_unknown_child(n: FsNode, m: FsNode, x: FsChild)
    requires
        m.stat == n.stat,
        m.listing == n.listing,
        m.ignore_file == n.ignore_file,
        m.children@ == n.children@.push(x),
        knows_nothing(x.node),
        child_index(n, utf8_of(x.name)) == -1,
    ensures
        same_facts(m, n),
{
    assert forall|q: Seq<Seq<u8>>|
        stat_at(m, q) == stat_at(n, q) && listing_at(m, q) == listing_at(n, q) && ignore_at(m, q)
            == ignore_at(n, q) by {
        if q.len() > 0 {
            lemma_child_index_push(n.children@, x, q[0], 0);
            lemma_child_index_from(n.children@, q[0], 0);
            let i = child_index(m, q[0]);
            if i == n.children@.len() {
                assert(m.children@[i] == x);
                lemma_knows_nothing_anywhere(x.node, q.drop_first());
            } else if 0 <= i < n.children@.len() {
                assert(m.children@[i] == n.children@[i]);
            }
        }
    }
}

/// Replacing what is known below one child changes nothing elsewhere.
proof fn lemma_replace_child(n: FsNode, m: FsNode, i: int, q: Seq<Seq<u8>>)
    requires
        0 <= i < n.children@.len(),
        m.stat == n.stat,
        m.listing == n.listing,
        m.ignore_file == n.ignore_file,
        m.children@.len() == n.children@.len(),
        m.children@[i].name == n.children@[i].name,
        forall|j: int| 0 <= j < n.children@.len() && j != i ==> m.children@[j] == n.children@[j],
        child_index(n, utf8_of(n.children@[i].name)) == i,
    ensures
        q.len() > 0 && q[0] == utf8_of(n.children@[i].name) ==> stat_at(m, q) == stat_at(
            m.children@[i].node,
            q.drop_first(),
        ) && stat_at(n, q) == stat_at(n.children@[i].node, q.drop_first()) && listing_at(m, q)
            == listing_at(m.children@[i].node, q.drop_first()) && listing_at(n, q) == listing_at(
            n.children@[i].node,
            q.drop_first(),
        ) && ignore_at(m, q) == ignore_at(m.children@[i].node, q.drop_first()) && ignore_at(n, q)
            == ignore_at(n.children@[i].node, q.drop_first()),
        !(q.len() > 0 && q[0] == utf8_of(n.children@[i].name)) ==> stat_at(m, q) == stat_at(n, q)
            && listing_at(m, q) == listing_at(n, q) && ignore_at(m, q) == ignore_at(n, q),
{
    assert forall|j: int| 0 <= j < m.children@.len() implies #[trigger] m.children@[j].name
        == n.children@[j].name by {
        if j != i {
            assert(m.children@[j] == n.children@[j]);
        }
    }
    if q.len() > 0 {
        lemma_child_index_same_names(m.children@, n.children@, q[0], 0);
        lemma_child_index_from(n.children@, q[0], 0);
        let ci = child_index(n, q[0]);
        if 0 <= ci < n.children@.len() && ci != i {
            assert(m.children@[ci] == n.children@[ci]);
        }
    }
}

/// One fact about a path, as recorded in a snapshot.
pub enum Fact {
    Stat(Probe<Option<ResolvedEntryKind>>),
    Listing(Probe<Vec<String>>),
    IgnoreFile(Probe<Option<String>>),
}

/// Whether the snapshot `n` records the fact `f` at `q`.
pub open spec fn records(n: FsNode, q: Seq<Seq<u8>>, f: Fact) -> bool {
    match f {
        Fact::Stat(p) => stat_at(n, q) == p,
        Fact::Listing(p) => listing_at(n, q) == p,
        Fact::IgnoreFile(p) => ignore_at(n, q) == p,
    }
}

/// Whether `a` and `b` agree at `q` on the kind of fact that `f` is.
pub open spec fn same_kind_of_fact(a: FsNode, b: FsNode, q: Seq<Seq<u8>>, f: Fact) -> bool {
    match f {
        Fact::Stat(_) => stat_at(a, q) == stat_at(b, q),
        Fact::Listing(_) => listing_at(a, q) == listing_at(b, q),
        Fact::IgnoreFile(_) => ignore_at(a, q) == ignore_at(b, q),
    }
}

/// Whether `a` and `b` agree at `q` on the other kinds of fact than `f`.
pub open spec fn same_other_facts(a: FsNode, b: FsNode, q: Seq<Seq<u8>>, f: Fact) -> bool {
    match f {
        Fact::Stat(_) => listing_at(a, q) == listing_at(b, q) && ignore_at(a, q) == ignore_at(b, q),
        Fact::Listing(_) => stat_at(a, q) == stat_at(b, q) && ignore_at(a, q) == ignore_at(b, q),
        Fact::IgnoreFile(_) => stat_at(a, q) == stat_at(b, q) && listing_at(a, q) == listing_at(b, q),
    }
}

/// Records the fact `f` about the path reached through `path[k..]`, and
/// nothing else.
fn record(n: &mut FsNode, path: &Vec<String>, k: usize, f: Fact)
    requires
        k <= path.len(),
    ensures
        records(*final(n), utf8_seq(path@).skip(k as int), f),
        forall|q: Seq<Seq<u8>>|
            q != utf8_seq(path@).skip(k as int) ==> same_kind_of_fact(*final(n), *old(n), q, f),
        forall|q: Seq<Seq<u8>>| same_other_facts(*final(n), *old(n), q, f),
    decreases path.len() - k,
{
    let ghost comps = utf8_seq(path@).skip(k as int);
    let ghost n0 = *n;
    let ghost fv = f;
    if k == path.len() {
        match f {
            Fact::Stat(p) => n.stat = p,
            Fact::Listing(p) => n.listing = p,
            Fact::IgnoreFile(p) => n.ignore_file = p,
        }
        proof {
            assert(comps.len() == 0);
            assert forall|q: Seq<Seq<u8>>| q != comps implies same_kind_of_fact(*n, n0, q, fv) by {
                if q.len() == 0 {
                    assert(q =~= comps);
                }
            }
        }
        return;
    }
    proof {
        assert(comps[0] == utf8_of(path@[k as int]));
        assert(comps.drop_first() =~= utf8_seq(path@).skip(k + 1));
    }
    let i = match find_child(n, &path[k]) {
        Some(i) => i,
        None => {
            n.children.push(FsChild { name: path[k].clone(), node: FsNode::unknown() });
            let i = n.children.len() - 1;
            proof {
                lemma_child_index_from(old(n).children@, comps[0], 0);
                assert forall|j: int| 0 <= j < i implies utf8_of(#[trigger] n.children@[j].name) != comps[0] by {
                    assert(n.children@[j] == old(n).children@[j]);
                }
                lemma_child_index_prefix_absent(n.children@, comps[0], 0, i as int);
                assert(n.children@ =~= n0.children@.push(n.children@[i as int]));
                lemma_push_unknown_child(n0, *n, n.children@[i as int]);
            }
            i
        },
    };
    let ghost n1 = *n;
    proof {
        lemma_child_index_from(n1.children@, comps[0], 0);
        assert(same_facts(n1, n0));
        assert(utf8_of(n1.children@[i as int].name) == comps[0]);
    }
    let ghost before = n.children@;
    let mut child = n.children.remove(i);
    let ghost old_child = child.node;
    proof {
        assert(old_child == before[i as int].node);
    }
    record(&mut child.node, path, k + 1, f);
    let ghost new_child = child.node;
    n.children.insert(i, child);
    proof {
        assert(n.children@[i as int].node == new_child);
        assert(forall|j: int| 0 <= j < before.len() ==> #[trigger] n.children@[j].name == before[j].name);
        lemma_child_index_same_names(n.children@, before, comps[0], 0);
        assert forall|j: int| 0 <= j < before.len() && j != i implies n.children@[j] == before[j] by {
            if j < i {
                assert(n.children@[j] == before.remove(i as int)[j]);
            } else {
                assert(n.children@[j] == before.remove(i as int)[j - 1]);
            }
        }
        lemma_replace_child(n1, *n, i as int, comps);
        assert forall|q: Seq<Seq<u8>>| q != comps implies same_kind_of_fact(*n, n0, q, fv) by {
            lemma_replace_child(n1, *n, i as int, q);
            assert(same_kind_of_fact(n1, n0, q, fv));
            if q.len() > 0 && q[0] == comps[0] {
                if q.drop_first() != comps.drop_first() {
                    assert(same_kind_of_fact(new_child, old_child, q.drop_first(), fv));
                }
                if q.drop_first() == comps.drop_first() {
                    assert forall|j: int| 0 <= j < q.len() implies q[j] == comps[j] by {
                        if j > 0 {
                            assert(q[j] == q.drop_first()[j - 1]);
                            assert(comps[j] == comps.drop_first()[j - 1]);
                        }
                    }
                    assert(q =~= comps);
                }
            }
        }
        assert forall|q: Seq<Seq<u8>>| same_other_facts(*n, n0, q, fv) by {
            lemma_replace_child(n1, *n, i as int, q);
            assert(same_other_facts(n1, n0, q, fv));
            if q.len() > 0 && q[0] == comps[0] {
                assert(same_other_facts(new_child, old_child, q.drop_first(), fv));
            }
        }
    }
}

/// Records the entry kind found at the path reached through `path[k..]`.
pub fn record_stat(n: &mut FsNode, path: &Vec<String>, k: usize, stat: Probe<Option<ResolvedEntryKind>>)
    requires
        k <= path.len(),
    ensures
        stat_at(*final(n), utf8_seq(path@).skip(k as int)) == stat,
        forall|q: Seq<Seq<u8>>|
            q != utf8_seq(path@).skip(k as int) ==> stat_at(*final(n), q) == stat_at(*old(n), q),
        forall|q: Seq<Seq<u8>>| listing_at(*final(n), q) == listing_at(*old(n), q),
        forall|q: Seq<Seq<u8>>| ignore_at(*final(n), q) == ignore_at(*old(n), q),
{
    let ghost f = Fact::Stat(stat);
    let ghost n0 = *n;
    record(n, path, k, Fact::Stat(stat));
    proof {
        assert forall|q: Seq<Seq<u8>>|
            listing_at(*n, q) == listing_at(n0, q) && ignore_at(*n, q) == ignore_at(n0, q) by {
            assert(same_other_facts(*n, n0, q, f));
        }
        assert forall|q: Seq<Seq<u8>>|
            q != utf8_seq(path@).skip(k as int) implies stat_at(*n, q) == stat_at(n0, q) by {
            assert(same_kind_of_fact(*n, n0, q, f));
        }
    }
}

/// Records what reading the path reached through `path[k..]` as a directory
/// gave.
pub fn record_listing(n: &mut FsNode, path: &Vec<String>, k: usize, listing: Probe<Vec<String>>)
    requires
        k <= path.len(),
    ensures
        listing_at(*final(n), utf8_seq(path@).skip(k as int)) == listing,
        forall|q: Seq<Seq<u8>>|
            q != utf8_seq(path@).skip(k as int) ==> listing_at(*final(n), q) == listing_at(
                *old(n),
                q,
            ),
        forall|q: Seq<Seq<u8>>| stat_at(*final(n), q) == stat_at(*old(n), q),
        forall|q: Seq<Seq<u8>>| ignore_at(*final(n), q) == ignore_at(*old(n), q),
{
    let ghost f = Fact::Listing(listing);
    let ghost n0 = *n;
    record(n, path, k, Fact::Listing(listing));
    proof {
        assert forall|q: Seq<Seq<u8>>|
            stat_at(*n, q) == stat_at(n0, q) && ignore_at(*n, q) == ignore_at(n0, q) by {
            assert(same_other_facts(*n, n0, q, f));
        }
        assert forall|q: Seq<Seq<u8>>|
            q != utf8_seq(path@).skip(k as int) implies listing_at(*n, q) == listing_at(n0, q) by {
            assert(same_kind_of_fact(*n, n0, q, f));
        }
    }
}

/// Records the `.gitignore` text found in the directory reached through
/// `path[k..]`.
pub fn record_ignore_file(n: &mut FsNode, path: &Vec<String>, k: usize, text: Probe<Option<String>>)
    requires
        k <= path.len(),
    ensures
        ignore_at(*final(n), utf8_seq(path@).skip(k as int)) == text,
        forall|q: Seq<Seq<u8>>|
            q != utf8_seq(path@).skip(k as int) ==> ignore_at(*final(n), q) == ignore_at(
                *old(n),
                q,
            ),
        forall|q: Seq<Seq<u8>>| stat_at(*final(n), q) == stat_at(*old(n), q),
        forall|q: Seq<Seq<u8>>| listing_at(*final(n), q) == listing_at(*old(n), q),
{
    let ghost f = Fact::IgnoreFile(text);
    let ghost n0 = *n;
    record(n, path, k, Fact::IgnoreFile(text));
    proof {
        assert forall|q: Seq<Seq<u8>>|
            stat_at(*n, q) == stat_at(n0, q) && listing_at(*n, q) == listing_at(n0, q) by {
            assert(same_other_facts(*n, n0, q, f));
        }
        assert forall|q: Seq<Seq<u8>>|
            q != utf8_seq(path@).skip(k as int) implies ignore_at(*n, q) == ignore_at(n0, q) by {
            assert(same_kind_of_fact(*n, n0, q, f));
        }
    }
}

/// When no child before `i` has the name and child `i` has it, the name's
/// index is `i`.
pub proof fn lemma_child_index_prefix_absent(cs: Seq<FsChild>, name: Seq<u8>, j: int, i: int)
    requires
        0 <= j <= i < cs.len(),
        utf8_of(cs[i].name) == name,
        forall|k: int| 0 <= k < i ==> utf8_of(#[trigger] cs[k].name) != name,
    ensures
        child_index_from(cs, name, j) == i,
    decreases i - j,
{
    if j < i {
        lemma_child_index_prefix_absent(cs, name, j + 1, i);
    }
}

} // verus!
