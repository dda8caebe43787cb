//! Selection of output paths from a resolved tree: the terminal entries, or,
//! in short form, complete recursive selections collapsed to their highest
//! selected directory.

use vstd::prelude::*;
use crate::manifest::{directives_of, utf8_of, Directive, Entry, Manifest};
use crate::paths::{
    comps_list, file_name, is_normal_piece, last_component, normal_piece, split_path, split_slash,
    utf8_seq,
};
use crate::fs::ResolvedEntryKind;
use crate::resolver::{res_of, Res, ResolvedEntry, ResolvedTree};

verus! {

broadcast use vstd::seq_lib::group_seq_properties;

/// A terminal or collapsed path selected from a resolved tree.
#[derive(Debug, Clone, PartialEq, Eq)]
pub struct OutputPath {
    /// The full path to the selected filesystem entry.
    pub path: String,
    /// The kind of filesystem entry that was selected.
    pub kind: ResolvedEntryKind,
}

/// The mathematical value of an output path.
pub struct Out {
    pub path: Seq<u8>,
    pub kind: ResolvedEntryKind,
}

impl View for OutputPath {
    type V = Out;

    open spec fn view(&self) -> Out {
        Out { path: utf8_of(self.path), kind: self.kind }
    }
}

pub open spec fn outs_of(v: Seq<OutputPath>) -> Seq<Out> {
    Seq::new(v.len(), |i: int| v[i]@)
}

/// A directory relative to the resolution root, as path components. The
/// special components of manifest paths are spelled `/` (the root
/// directory), `.` (a leading current directory) and `..` (a parent).
pub type Key = Seq<Seq<u8>>;

pub open spec fn dot() -> Seq<u8> {
    seq![0x2Eu8]
}

pub open spec fn root_piece() -> Seq<u8> {
    seq![0x2Fu8]
}

/// The components of the directory `k` joined with the manifest path `p`.
pub open spec fn join_key(k: Key, p: Seq<u8>) -> Key {
    let ps = split_slash(p);
    if p.len() > 0 && p[0] == 0x2F {
        seq![root_piece()] + ps.filter(normal_piece())
    } else if k.len() == 0 && ps.len() > 0 && ps[0] == dot() {
        seq![dot()] + ps.subrange(1, ps.len() as int).filter(normal_piece())
    } else {
        k + ps.filter(normal_piece())
    }
}

/// The directories below which a manifest selects recursively: with `***`
/// and nothing to keep out (`collapsed`), with `***` otherwise (`expanded`),
/// and with `**` (`filtered`).
#[verifier::ext_equal]
pub struct Classes {
    pub collapsed: Seq<Key>,
    pub expanded: Seq<Key>,
    pub filtered: Seq<Key>,
}

pub open spec fn no_classes() -> Classes {
    Classes { collapsed: seq![], expanded: seq![], filtered: seq![] }
}

pub open spec fn join_classes(a: Classes, b: Classes) -> Classes {
    Classes {
        collapsed: a.collapsed + b.collapsed,
        expanded: a.expanded + b.expanded,
        filtered: a.filtered + b.filtered,
    }
}

pub open spec fn has_recursive_all(ds: Seq<Directive>) -> bool {
    exists|i: int| 0 <= i < ds.len() && #[trigger] ds[i] is RecursiveAll
}

pub open spec fn has_recursive(ds: Seq<Directive>) -> bool {
    exists|i: int| 0 <= i < ds.len() && #[trigger] ds[i] is Recursive
}

pub open spec fn has_exclude(ds: Seq<Directive>) -> bool {
    exists|i: int| 0 <= i < ds.len() && #[trigger] ds[i] is Exclude
}

/// Classifies the directory `dir`, holding the directives `ds`, and the
/// blocks below it.
pub open spec fn classify(ds: Seq<Directive>, dir: Key, depth: Option<usize>) -> Classes
    decreases ds, ds.len() + 1,
{
    if has_recursive_all(ds) {
        if depth is None && !has_exclude(ds) {
            Classes { collapsed: seq![dir], expanded: seq![], filtered: seq![] }
        } else {
            Classes { collapsed: seq![], expanded: seq![dir], filtered: seq![] }
        }
    } else if has_recursive(ds) {
        Classes { collapsed: seq![], expanded: seq![], filtered: seq![dir] }
    } else {
        classify_from(ds, dir, depth, 0)
    }
}

/// The classes of the blocks among `ds[i..]`.
pub open spec fn classify_from(ds: Seq<Directive>, dir: Key, depth: Option<usize>, i: int) -> Classes
    decreases ds, ds.len() - i,
{
    if i < 0 || i >= ds.len() {
        no_classes()
    } else {
        match ds[i] {
            Directive::Descend(p, sub) => join_classes(
                classify(sub, join_key(dir, p), depth),
                classify_from(ds, dir, depth, i + 1),
            ),
            _ => classify_from(ds, dir, depth, i + 1),
        }
    }
}

pub open spec fn out_of(e: Res) -> Out {
    Out { path: e.path, kind: e.kind }
}

/// The entries without selected children, in order.
pub open spec fn terminals(es: Seq<Res>) -> Seq<Out>
    decreases es,
{
    if es.len() == 0 {
        seq![]
    } else {
        let e = es[0];
        let here = if e.children.len() == 0 {
            seq![out_of(e)]
        } else {
            terminals(e.children)
        };
        here + terminals(es.subrange(1, es.len() as int))
    }
}

/// The entries themselves.
pub open spec fn immediate(es: Seq<Res>) -> Seq<Out> {
    Seq::new(es.len(), |i: int| out_of(es[i]))
}

/// The short selection of the entries `es`, whose directory is `parent`.
pub open spec fn short_collect(es: Seq<Res>, parent: Key, c: Classes) -> Seq<Out>
    decreases es,
{
    if es.len() == 0 {
        seq![]
    } else {
        let e = es[0];
        let key = parent.push(last_component(e.path));
        let here = if c.filtered.contains(key) {
            terminals(seq![e])
        } else if c.expanded.contains(key) {
            if e.children.len() == 0 {
                seq![out_of(e)]
            } else {
                immediate(e.children)
            }
        } else if e.children.len() == 0 || c.collapsed.contains(key) {
            seq![out_of(e)]
        } else {
            short_collect(e.children, key, c)
        };
        here + short_collect(es.subrange(1, es.len() as int), parent, c)
    }
}

/// The output paths of a tree resolved at `root` from the directives `ds`.
pub open spec fn output_spec(
    root: Seq<u8>,
    es: Seq<Res>,
    ds: Seq<Directive>,
    depth: Option<usize>,
    short: bool,
) -> Seq<Out> {
    if !short {
        terminals(es)
    } else {
        let c = classify(ds, seq![], depth);
        if c.collapsed.contains(seq![]) {
            seq![Out { path: root, kind: ResolvedEntryKind::Directory }]
        } else if c.filtered.contains(seq![]) {
            terminals(es)
        } else if c.expanded.contains(seq![]) {
            immediate(es)
        } else {
            short_collect(es, seq![], c)
        }
    }
}

/// In short form, a manifest whose top level selects everything with `***`,
/// excludes nothing and has no depth limit is shown as its root directory
/// alone.
pub proof fn law_complete_selection_collapses_to_root(
    root: Seq<u8>,
    es: Seq<Res>,
    ds: Seq<Directive>,
)
    requires
        has_recursive_all(ds),
        !has_exclude(ds),
    ensures
        output_spec(root, es, ds, None, true) == seq![
            Out { path: root, kind: ResolvedEntryKind::Directory },
        ],
{
    let c = classify(ds, seq![], None);
    assert(c.collapsed == seq![Seq::<Seq<u8>>::empty()]);
    assert(c.collapsed[0] == Seq::<Seq<u8>>::empty());
    assert(c.collapsed.contains(seq![]));
}

/// In short form, a top-level `***` that an exclusion or a depth limit keeps
/// from being complete shows the entries of the root themselves.
pub proof fn law_incomplete_selection_lists_immediate_entries(
    root: Seq<u8>,
    es: Seq<Res>,
    ds: Seq<Directive>,
    depth: Option<usize>,
)
    requires
        has_recursive_all(ds),
        has_exclude(ds) || depth is Some,
    ensures
        output_spec(root, es, ds, depth, true) == immediate(es),
{
    let c = classify(ds, seq![], depth);
    assert(c.expanded == seq![Seq::<Seq<u8>>::empty()]);
    assert(c.expanded[0] == Seq::<Seq<u8>>::empty());
    assert(c.expanded.contains(seq![]));
    assert(!c.collapsed.contains(seq![]));
    assert(!c.filtered.contains(seq![]));
}

/// A top-level `**` (without `***`) shows the same paths in short form as in
/// full form: the entries without selected children.
pub proof fn law_filtered_selection_is_not_collapsed(
    root: Seq<u8>,
    es: Seq<Res>,
    ds: Seq<Directive>,
    depth: Option<usize>,
)
    requires
        has_recursive(ds),
        !has_recursive_all(ds),
    ensures
        output_spec(root, es, ds, depth, true) == output_spec(root, es, ds, depth, false),
{
    let c = classify(ds, seq![], depth);
    assert(c.filtered == seq![Seq::<Seq<u8>>::empty()]);
    assert(c.filtered[0] == Seq::<Seq<u8>>::empty());
    assert(c.filtered.contains(seq![]));
    assert(!c.collapsed.contains(seq![]));
}

/// The entries of a tree at every level, each before what is selected below
/// it, as output paths.
pub open spec fn all_entries(es: Seq<Res>) -> Seq<Out>
    decreases es,
{
    if es.len() == 0 {
        seq![]
    } else {
        seq![out_of(es[0])] + all_entries(es[0].children) + all_entries(
            es.subrange(1, es.len() as int),
        )
    }
}

proof fn lemma_concat_contains(a: Seq<Out>, b: Seq<Out>, x: Out)
    ensures
        (a + b).contains(x) <==> (a.contains(x) || b.contains(x)),
{
    if a.contains(x) {
        let k = choose|k: int| 0 <= k < a.len() && a[k] == x;
        assert((a + b)[k] == a[k]);
    }
    if b.contains(x) {
        let k = choose|k: int| 0 <= k < b.len() && b[k] == x;
        assert((a + b)[a.len() + k] == b[k]);
    }
    if (a + b).contains(x) {
        let k = choose|k: int| 0 <= k < (a + b).len() && (a + b)[k] == x;
        if k < a.len() {
            assert(a[k] == x);
        } else {
            assert(b[k - a.len()] == x);
        }
    }
}

/// What `all_entries` holds of a non-empty list.
proof fn lemma_all_entries_parts(es: Seq<Res>, x: Out)
    requires
        es.len() > 0,
    ensures
        all_entries(es).contains(x) <==> (x == out_of(es[0]) || all_entries(es[0].children).contains(
            x,
        ) || all_entries(es.subrange(1, es.len() as int)).contains(x)),
{
    let one = seq![out_of(es[0])];
    let kids = all_entries(es[0].children);
    let rest = all_entries(es.subrange(1, es.len() as int));
    lemma_concat_contains(one + kids, rest, x);
    lemma_concat_contains(one, kids, x);
    assert(one.contains(x) <==> x == out_of(es[0])) by {
        if x == out_of(es[0]) {
            assert(one[0] == x);
        }
    }
}

proof fn lemma_terminals_are_entries(es: Seq<Res>)
    ensures
        forall|x: Out| terminals(es).contains(x) ==> all_entries(es).contains(x),
    decreases es,
{
    if es.len() > 0 {
        let e = es[0];
        let rest = es.subrange(1, es.len() as int);
        assert(decreases_to!(es => es[0]));
        lemma_terminals_are_entries(e.children);
        lemma_terminals_are_entries(rest);
        let here = if e.children.len() == 0 {
            seq![out_of(e)]
        } else {
            terminals(e.children)
        };
        assert forall|x: Out| terminals(es).contains(x) implies all_entries(es).contains(x) by {
            lemma_concat_contains(here, terminals(rest), x);
            lemma_all_entries_parts(es, x);
            if e.children.len() == 0 && here.contains(x) {
                let k = choose|k: int| 0 <= k < here.len() && here[k] == x;
                assert(x == out_of(e));
            }
        }
    }
}

proof fn lemma_immediate_are_entries(es: Seq<Res>)
    ensures
        forall|x: Out| immediate(es).contains(x) ==> all_entries(es).contains(x),
    decreases es.len(),
{
    if es.len() > 0 {
        let rest = es.subrange(1, es.len() as int);
        lemma_immediate_are_entries(rest);
        assert forall|x: Out| immediate(es).contains(x) implies all_entries(es).contains(x) by {
            lemma_all_entries_parts(es, x);
            let k = choose|k: int| 0 <= k < immediate(es).len() && immediate(es)[k] == x;
            if k > 0 {
                assert(immediate(rest)[k - 1] == x);
            }
        }
    }
}

proof fn lemma_short_collect_are_entries(es: Seq<Res>, parent: Key, c: Classes)
    ensures
        forall|x: Out| short_collect(es, parent, c).contains(x) ==> all_entries(es).contains(x),
    decreases es,
{
    if es.len() > 0 {
        let e = es[0];
        let rest = es.subrange(1, es.len() as int);
        assert(decreases_to!(es => es[0]));
        let key = parent.push(last_component(e.path));
        lemma_short_collect_are_entries(rest, parent, c);
        lemma_short_collect_are_entries(e.children, key, c);
        lemma_terminals_are_entries(e.children);
        lemma_immediate_are_entries(e.children);
        lemma_terminals_single(e);
        let here = if c.filtered.contains(key) {
            terminals(seq![e])
        } else if c.expanded.contains(key) {
            if e.children.len() == 0 {
                seq![out_of(e)]
            } else {
                immediate(e.children)
            }
        } else if e.children.len() == 0 || c.collapsed.contains(key) {
            seq![out_of(e)]
        } else {
            short_collect(e.children, key, c)
        };
        assert forall|x: Out| short_collect(es, parent, c).contains(x) implies all_entries(
            es,
        ).contains(x) by {
            lemma_concat_contains(here, short_collect(rest, parent, c), x);
            lemma_all_entries_parts(es, x);
            if here.contains(x) && here.len() == 1 && here == seq![out_of(e)] {
                let k = choose|k: int| 0 <= k < here.len() && here[k] == x;
                assert(x == out_of(e));
            }
        }
    }
}

/// Every output path, full or short, is the path and kind of an entry of the
/// tree, at some level; the one exception is a short form that collapses the
/// whole selection to the root directory, which it then names alone.
pub proof fn law_output_paths_name_entries(
    root: Seq<u8>,
    es: Seq<Res>,
    ds: Seq<Directive>,
    depth: Option<usize>,
    short: bool,
)
    ensures
        short && classify(ds, seq![], depth).collapsed.contains(seq![]) ==> output_spec(
            root,
            es,
            ds,
            depth,
            short,
        ) == seq![Out { path: root, kind: ResolvedEntryKind::Directory }],
        !(short && classify(ds, seq![], depth).collapsed.contains(seq![])) ==> forall|x: Out|
            output_spec(root, es, ds, depth, short).contains(x) ==> all_entries(es).contains(x),
{
    lemma_terminals_are_entries(es);
    lemma_immediate_are_entries(es);
    lemma_short_collect_are_entries(es, seq![], classify(ds, seq![], depth));
}

/// Whether the output paths `o` are a cut of the forest `es`: for each entry
/// of `es`, in order, the entry itself or a cut of its children. In a cut no
/// output lies below another, and every entry without children is, or lies
/// below, exactly one output.
pub open spec fn is_cut(o: Seq<Out>, es: Seq<Res>) -> bool
    decreases es,
{
    if es.len() == 0 {
        o.len() == 0
    } else {
        exists|k: int|
            0 <= k <= o.len() && cut_of_entry(#[trigger] o.take(k), es[0]) && is_cut(
                o.skip(k),
                es.subrange(1, es.len() as int),
            )
    }
}

/// Whether `o` is the entry `e` itself or a cut of its children.
pub open spec fn cut_of_entry(o: Seq<Out>, e: Res) -> bool
    decreases e,
{
    o == seq![out_of(e)] || (e.children.len() > 0 && is_cut(o, e.children))
}

proof fn lemma_cut_join(a: Seq<Out>, b: Seq<Out>, es: Seq<Res>)
    requires
        es.len() > 0,
        cut_of_entry(a, es[0]),
        is_cut(b, es.subrange(1, es.len() as int)),
    ensures
        is_cut(a + b, es),
{
    let o = a + b;
    assert(o.take(a.len() as int) =~= a);
    assert(o.skip(a.len() as int) =~= b);
}

proof fn lemma_terminals_cut(es: Seq<Res>)
    ensures
        is_cut(terminals(es), es),
    decreases es,
{
    if es.len() > 0 {
        let e = es[0];
        let rest = es.subrange(1, es.len() as int);
        assert(decreases_to!(es => es[0]));
        lemma_terminals_cut(rest);
        if e.children.len() > 0 {
            lemma_terminals_cut(e.children);
        }
        let here = if e.children.len() == 0 {
            seq![out_of(e)]
        } else {
            terminals(e.children)
        };
        assert(cut_of_entry(here, e));
        lemma_cut_join(here, terminals(rest), es);
    }
}

proof fn lemma_immediate_cut(es: Seq<Res>)
    ensures
        is_cut(immediate(es), es),
    decreases es.len(),
{
    if es.len() > 0 {
        let rest = es.subrange(1, es.len() as int);
        lemma_immediate_cut(rest);
        assert(immediate(es) =~= seq![out_of(es[0])] + immediate(rest));
        assert(cut_of_entry(seq![out_of(es[0])], es[0]));
        lemma_cut_join(seq![out_of(es[0])], immediate(rest), es);
    }
}

proof fn lemma_short_collect_cut(es: Seq<Res>, parent: Key, c: Classes)
    ensures
        is_cut(short_collect(es, parent, c), es),
    decreases es,
{
    if es.len() > 0 {
        let e = es[0];
        let rest = es.subrange(1, es.len() as int);
        assert(decreases_to!(es => es[0]));
        let key = parent.push(last_component(e.path));
        lemma_short_collect_cut(rest, parent, c);
        lemma_terminals_single(e);
        if e.children.len() > 0 {
            lemma_terminals_cut(e.children);
            lemma_immediate_cut(e.children);
            lemma_short_collect_cut(e.children, key, c);
        }
        let here = if c.filtered.contains(key) {
            terminals(seq![e])
        } else if c.expanded.contains(key) {
            if e.children.len() == 0 {
                seq![out_of(e)]
            } else {
                immediate(e.children)
            }
        } else if e.children.len() == 0 || c.collapsed.contains(key) {
            seq![out_of(e)]
        } else {
            short_collect(e.children, key, c)
        };
        assert(cut_of_entry(here, e));
        lemma_cut_join(here, short_collect(rest, parent, c), es);
    }
}

proof fn lemma_terminals_nonempty(es: Seq<Res>)
    requires
        es.len() > 0,
    ensures
        terminals(es).len() >= 1,
    decreases es,
{
    let e = es[0];
    assert(decreases_to!(es => es[0]));
    if e.children.len() > 0 {
        lemma_terminals_nonempty(e.children);
    }
}

proof fn lemma_cut_len(o: Seq<Out>, es: Seq<Res>)
    requires
        is_cut(o, es),
    ensures
        o.len() <= terminals(es).len(),
    decreases es,
{
    if es.len() > 0 {
        let e = es[0];
        let rest = es.subrange(1, es.len() as int);
        assert(decreases_to!(es => es[0]));
        let k = choose|k: int|
            0 <= k <= o.len() && cut_of_entry(#[trigger] o.take(k), es[0]) && is_cut(
                o.skip(k),
                rest,
            );
        lemma_cut_len(o.skip(k), rest);
        let here = if e.children.len() == 0 {
            seq![out_of(e)]
        } else {
            terminals(e.children)
        };
        if e.children.len() > 0 {
            lemma_terminals_nonempty(e.children);
            if o.take(k) != seq![out_of(e)] {
                lemma_cut_len(o.take(k), e.children);
            }
        } else {
            assert(o.take(k) == seq![out_of(e)]);
        }
        assert(terminals(es) == here + terminals(rest));
        assert(o.take(k).len() == k);
        assert(o.skip(k).len() == o.len() - k);
        assert(o.take(k).len() <= here.len());
    }
}

/// Short output is a cut of the tree: for each top-level entry, in order,
/// the entry itself or a cut of its children. So no short output path lies
/// below another, each entry without children is or lies below exactly one
/// of them, and there are never more of them than full output paths; the one
/// exception is a short form that collapses the whole selection to the root
/// directory. Full output is the cut through the entries without children.
pub proof fn law_short_output_is_a_cut(
    root: Seq<u8>,
    es: Seq<Res>,
    ds: Seq<Directive>,
    depth: Option<usize>,
)
    ensures
        is_cut(output_spec(root, es, ds, depth, false), es),
        !classify(ds, seq![], depth).collapsed.contains(seq![]) ==> is_cut(
            output_spec(root, es, ds, depth, true),
            es,
        ) && output_spec(root, es, ds, depth, true).len() <= output_spec(
            root,
            es,
            ds,
            depth,
            false,
        ).len(),
{
    lemma_terminals_cut(es);
    lemma_immediate_cut(es);
    lemma_short_collect_cut(es, seq![], classify(ds, seq![], depth));
    if !classify(ds, seq![], depth).collapsed.contains(seq![]) {
        lemma_cut_len(output_spec(root, es, ds, depth, true), es);
    }
}

proof fn lemma_classify_from_blocks(ds: Seq<Directive>, dir: Key, depth: Option<usize>, i: int, j: int)
    requires
        0 <= i <= j < ds.len(),
        ds[j] is Descend,
    ensures
        ({
            let inner = classify(ds[j]->Descend_1, join_key(dir, ds[j]->Descend_0), depth);
            let all = classify_from(ds, dir, depth, i);
            &&& forall|k: Key| inner.collapsed.contains(k) ==> all.collapsed.contains(k)
            &&& forall|k: Key| inner.expanded.contains(k) ==> all.expanded.contains(k)
            &&& forall|k: Key| inner.filtered.contains(k) ==> all.filtered.contains(k)
        }),
    decreases j - i,
{
    let inner = classify(ds[j]->Descend_1, join_key(dir, ds[j]->Descend_0), depth);
    if i < j {
        lemma_classify_from_blocks(ds, dir, depth, i + 1, j);
        let rest = classify_from(ds, dir, depth, i + 1);
        match ds[i] {
            Directive::Descend(p, sub) => {
                let a = classify(sub, join_key(dir, p), depth);
                assert forall|k: Key| rest.collapsed.contains(k) implies (a.collapsed
                    + rest.collapsed).contains(k) by {
                    let x = choose|x: int| 0 <= x < rest.collapsed.len() && rest.collapsed[x] == k;
                    assert((a.collapsed + rest.collapsed)[a.collapsed.len() + x] == k);
                }
                assert forall|k: Key| rest.expanded.contains(k) implies (a.expanded
                    + rest.expanded).contains(k) by {
                    let x = choose|x: int| 0 <= x < rest.expanded.len() && rest.expanded[x] == k;
                    assert((a.expanded + rest.expanded)[a.expanded.len() + x] == k);
                }
                assert forall|k: Key| rest.filtered.contains(k) implies (a.filtered
                    + rest.filtered).contains(k) by {
                    let x = choose|x: int| 0 <= x < rest.filtered.len() && rest.filtered[x] == k;
                    assert((a.filtered + rest.filtered)[a.filtered.len() + x] == k);
                }
            },
            _ => {},
        }
    } else {
        let rest = classify_from(ds, dir, depth, j + 1);
        assert forall|k: Key| inner.collapsed.contains(k) implies (inner.collapsed
            + rest.collapsed).contains(k) by {
            let x = choose|x: int| 0 <= x < inner.collapsed.len() && inner.collapsed[x] == k;
            assert((inner.collapsed + rest.collapsed)[x] == k);
        }
        assert forall|k: Key| inner.expanded.contains(k) implies (inner.expanded
            + rest.expanded).contains(k) by {
            let x = choose|x: int| 0 <= x < inner.expanded.len() && inner.expanded[x] == k;
            assert((inner.expanded + rest.expanded)[x] == k);
        }
        assert forall|k: Key| inner.filtered.contains(k) implies (inner.filtered
            + rest.filtered).contains(k) by {
            let x = choose|x: int| 0 <= x < inner.filtered.len() && inner.filtered[x] == k;
            assert((inner.filtered + rest.filtered)[x] == k);
        }
    }
}

/// Every block of a directory that does not itself select recursively is
/// classified, wherever it stands among the directives: what the block's own
/// directives make of its directory and the blocks below it holds for the
/// whole list. In particular a block `p { *** }` with no exclusion and no
/// depth limit collapses to the directory `p`, whatever comes before it.
pub proof fn law_every_block_is_classified(ds: Seq<Directive>, dir: Key, depth: Option<usize>, j: int)
    requires
        0 <= j < ds.len(),
        ds[j] is Descend,
        !has_recursive_all(ds),
        !has_recursive(ds),
    ensures
        ({
            let p = ds[j]->Descend_0;
            let sub = ds[j]->Descend_1;
            let inner = classify(sub, join_key(dir, p), depth);
            let all = classify(ds, dir, depth);
            &&& forall|k: Key| inner.collapsed.contains(k) ==> all.collapsed.contains(k)
            &&& forall|k: Key| inner.expanded.contains(k) ==> all.expanded.contains(k)
            &&& forall|k: Key| inner.filtered.contains(k) ==> all.filtered.contains(k)
            &&& (has_recursive_all(sub) && depth is None && !has_exclude(sub)) ==> all.collapsed.contains(
                join_key(dir, p),
            )
        }),
{
    lemma_classify_from_blocks(ds, dir, depth, 0, j);
    let p = ds[j]->Descend_0;
    let sub = ds[j]->Descend_1;
    let inner = classify(sub, join_key(dir, p), depth);
    if has_recursive_all(sub) && depth is None && !has_exclude(sub) {
        assert(inner.collapsed[0] == join_key(dir, p));
        assert(inner.collapsed.contains(join_key(dir, p)));
    }
}

pub proof fn lemma_terminals_add(a: Seq<Res>, b: Seq<Res>)
    ensures
        terminals(a + b) == terminals(a) + terminals(b),
    decreases a.len(),
{
    if a.len() == 0 {
        assert(a + b =~= b);
    } else {
        assert((a + b)[0] == a[0]);
        assert((a + b).subrange(1, (a + b).len() as int) =~= a.subrange(1, a.len() as int) + b);
        lemma_terminals_add(a.subrange(1, a.len() as int), b);
    }
}

pub proof fn lemma_short_collect_add(a: Seq<Res>, b: Seq<Res>, parent: Key, c: Classes)
    ensures
        short_collect(a + b, parent, c) == short_collect(a, parent, c) + short_collect(b, parent, c),
    decreases a.len(),
{
    if a.len() == 0 {
        assert(a + b =~= b);
    } else {
        assert((a + b)[0] == a[0]);
        assert((a + b).subrange(1, (a + b).len() as int) =~= a.subrange(1, a.len() as int) + b);
        lemma_short_collect_add(a.subrange(1, a.len() as int), b, parent, c);
    }
}

pub proof fn lemma_terminals_single(e: Res)
    ensures
        terminals(seq![e]) == if e.children.len() == 0 {
            seq![out_of(e)]
        } else {
            terminals(e.children)
        },
{
    let s = seq![e];
    assert(s.subrange(1, 1) =~= Seq::<Res>::empty());
    assert(terminals(Seq::<Res>::empty()) == Seq::<Out>::empty());
    assert(s[0] == e);
    if e.children.len() == 0 {
        assert(seq![out_of(e)] + Seq::<Out>::empty() =~= seq![out_of(e)]);
    } else {
        assert(terminals(e.children) + Seq::<Out>::empty() =~= terminals(e.children));
    }
}

pub proof fn lemma_short_collect_single(e: Res, parent: Key, c: Classes)
    ensures
        short_collect(seq![e], parent, c) == ({
            let key = parent.push(last_component(e.path));
            if c.filtered.contains(key) {
                terminals(seq![e])
            } else if c.expanded.contains(key) {
                if e.children.len() == 0 {
                    seq![out_of(e)]
                } else {
                    immediate(e.children)
                }
            } else if e.children.len() == 0 || c.collapsed.contains(key) {
                seq![out_of(e)]
            } else {
                short_collect(e.children, key, c)
            }
        }),
{
    let s = seq![e];
    assert(s.subrange(1, 1) =~= Seq::<Res>::empty());
    assert(short_collect(Seq::<Res>::empty(), parent, c) == Seq::<Out>::empty());
    assert(s[0] == e);
    let key = parent.push(last_component(e.path));
    let here = if c.filtered.contains(key) {
        terminals(seq![e])
    } else if c.expanded.contains(key) {
        if e.children.len() == 0 {
            seq![out_of(e)]
        } else {
            immediate(e.children)
        }
    } else if e.children.len() == 0 || c.collapsed.contains(key) {
        seq![out_of(e)]
    } else {
        short_collect(e.children, key, c)
    };
    assert(here + Seq::<Out>::empty() =~= here);
}

pub proof fn lemma_res_children(e: ResolvedEntry)
    ensures
        e@.children == res_of(e.children@),
{
    assert(e@.children =~= res_of(e.children@));
}

/// The output path of an entry.
fn output_of(e: &ResolvedEntry) -> (r: OutputPath)
    ensures
        r@ == out_of(e@),
{
    OutputPath { path: e.path.clone(), kind: e.kind }
}

/// Appends the entries of `es` that have no selected children.
fn collect_terminals(es: &Vec<ResolvedEntry>, out: &mut Vec<OutputPath>)
    ensures
        outs_of(final(out)@) == outs_of(old(out)@) + terminals(res_of(es@)),
    decreases es,
{
    let ghost all = res_of(es@);
    let mut i: usize = 0;
    proof {
        assert(all.subrange(0, 0) =~= Seq::<Res>::empty());
        assert(outs_of(out@) =~= outs_of(old(out)@) + terminals(all.subrange(0, 0)));
    }
    while i < es.len()
        invariant
            i <= es@.len(),
            all == res_of(es@),
            outs_of(out@) == outs_of(old(out)@) + terminals(all.subrange(0, i as int)),
        decreases es@.len() - i,
    {
        let e = &es[i];
        proof {
            assert(all.subrange(0, i + 1) =~= all.subrange(0, i as int) + seq![all[i as int]]);
            lemma_terminals_add(all.subrange(0, i as int), seq![all[i as int]]);
            lemma_terminals_single(all[i as int]);
            lemma_res_children(*e);
        }
        if e.children.len() == 0 {
            let ghost before = outs_of(out@);
            out.push(output_of(e));
            proof {
                assert(outs_of(out@) =~= before + seq![out_of(all[i as int])]);
            }
        } else {
            proof {
                assert(decreases_to!(es => es@[i as int].children));
            }
            collect_terminals(&e.children, out);
        }
        i = i + 1;
    }
    proof {
        assert(all.subrange(0, es@.len() as int) =~= all);
    }
}

/// Appends the entries of `es` themselves.
fn collect_immediate(es: &Vec<ResolvedEntry>, out: &mut Vec<OutputPath>)
    ensures
        outs_of(final(out)@) == outs_of(old(out)@) + immediate(res_of(es@)),
{
    let ghost all = res_of(es@);
    let mut i: usize = 0;
    proof {
        assert(outs_of(out@) =~= outs_of(old(out)@) + immediate(all.subrange(0, 0)));
    }
    while i < es.len()
        invariant
            i <= es@.len(),
            all == res_of(es@),
            outs_of(out@) == outs_of(old(out)@) + immediate(all.subrange(0, i as int)),
        decreases es@.len() - i,
    {
        let ghost before = outs_of(out@);
        let o = output_of(&es[i]);
        let ghost ov = o@;
        out.push(o);
        proof {
            assert(outs_of(out@) =~= before.push(ov));
            assert(ov == out_of(all[i as int]));
            assert(immediate(all.subrange(0, i + 1)) =~= immediate(all.subrange(0, i as int)).push(
                out_of(all[i as int]),
            ));
        }
        i = i + 1;
    }
    proof {
        assert(all.subrange(0, es@.len() as int) =~= all);
    }
}

/// Whether a piece names an entry: neither empty nor `.`.
fn piece_is_normal(q: &String) -> (r: bool)
    ensures
        r == is_normal_piece(utf8_of(*q)),
{
    let b = q.as_str().as_bytes();
    proof {
        let d = seq![0x2Eu8];
        assert(d.len() == 1 && d[0] == 0x2E);
        if b@.len() == 1 && b@[0] == 0x2E {
            assert(b@ =~= d);
        }
    }
    b.len() > 0 && !(b.len() == 1 && b[0] == 0x2E)
}

/// Appends the pieces `pieces[from..]` that name entries.
fn keep_normal(pieces: &Vec<String>, from: usize, acc: &mut Vec<String>)
    requires
        from <= pieces@.len(),
    ensures
        utf8_seq(final(acc)@) == utf8_seq(old(acc)@) + utf8_seq(pieces@).subrange(
            from as int,
            pieces@.len() as int,
        ).filter(normal_piece()),
{
    let ghost ps = utf8_seq(pieces@);
    let mut i = from;
    proof {
        assert(ps.subrange(from as int, from as int) =~= Seq::<Seq<u8>>::empty());
        assert(Seq::<Seq<u8>>::empty().filter(normal_piece()) =~= Seq::<Seq<u8>>::empty()) by {
            reveal(Seq::filter);
        }
        assert(utf8_seq(acc@) =~= utf8_seq(old(acc)@) + ps.subrange(from as int, from as int).filter(
            normal_piece(),
        ));
    }
    while i < pieces.len()
        invariant
            from <= i <= pieces@.len(),
            ps == utf8_seq(pieces@),
            utf8_seq(acc@) == utf8_seq(old(acc)@) + ps.subrange(from as int, i as int).filter(
                normal_piece(),
            ),
        decreases pieces@.len() - i,
    {
        proof {
            assert(ps.subrange(from as int, i + 1) =~= ps.subrange(from as int, i as int).push(
                ps[i as int],
            ));
            ps.subrange(from as int, i as int).lemma_filter_push(ps[i as int], normal_piece());
        }
        if piece_is_normal(&pieces[i]) {
            let ghost before = utf8_seq(acc@);
            acc.push(pieces[i].clone());
            proof {
                assert(utf8_seq(acc@) =~= before.push(ps[i as int]));
            }
        }
        i = i + 1;
    }
}

/// The components of the directory `k` joined with the manifest path `p`.
fn key_join(k: &Vec<String>, p: &String) -> (r: Vec<String>)
    ensures
        utf8_seq(r@) == join_key(utf8_seq(k@), utf8_of(*p)),
{
    let pieces = split_path(p);
    let ghost ps = utf8_seq(pieces@);
    let b = p.as_str().as_bytes();
    proof {
        assert(ps.subrange(0, ps.len() as int) =~= ps);
    }
    if b.len() > 0 && b[0] == 0x2F {
        let mut r: Vec<String> = Vec::new();
        r.push("/".to_owned());
        proof {
            reveal_strlit("/");
            crate::text::lemma_encode_ascii('/');
            assert(r@[0]@ == seq!['/']);
            assert(('/' as u32) as u8 == 0x2Fu8);
            assert(utf8_of(r@[0]) =~= root_piece());
            assert(utf8_seq(r@) =~= seq![root_piece()]);
        }
        keep_normal(&pieces, 0, &mut r);
        return r;
    }
    let leading_dot = k.len() == 0 && pieces.len() > 0 && {
        let f = pieces[0].as_str().as_bytes();
        f.len() == 1 && f[0] == 0x2E
    };
    proof {
        if k.len() == 0 && pieces.len() > 0 {
            let f = utf8_of(pieces@[0]);
            assert(ps[0] == f);
            let d = dot();
            assert(d.len() == 1 && d[0] == 0x2E);
            if f.len() == 1 && f[0] == 0x2E {
                assert(f =~= d);
            }
        }
        assert(leading_dot == (utf8_seq(k@).len() == 0 && ps.len() > 0 && ps[0] == dot()));
    }
    if leading_dot {
        let mut r: Vec<String> = Vec::new();
        r.push(".".to_owned());
        proof {
            reveal_strlit(".");
            crate::text::lemma_encode_ascii('.');
            assert(r@[0]@ == seq!['.']);
            assert(('.' as u32) as u8 == 0x2Eu8);
            assert(utf8_of(r@[0]) =~= dot());
            assert(utf8_seq(r@) =~= seq![dot()]);
        }
        keep_normal(&pieces, 1, &mut r);
        r
    } else {
        let mut r = crate::resolver::copy_names(k);
        keep_normal(&pieces, 0, &mut r);
        r
    }
}

/// Whether `key` is among `keys`.
fn contains_key(keys: &Vec<Vec<String>>, key: &Vec<String>) -> (r: bool)
    ensures
        r == comps_list(keys@).contains(utf8_seq(key@)),
{
    let ghost kl = comps_list(keys@);
    let ghost kv = utf8_seq(key@);
    let mut i: usize = 0;
    while i < keys.len()
        invariant
            i <= keys@.len(),
            kl == comps_list(keys@),
            kv == utf8_seq(key@),
            forall|j: int| 0 <= j < i ==> kl[j] != kv,
        decreases keys@.len() - i,
    {
        let cand = &keys[i];
        let mut same = cand.len() == key.len();
        let mut j: usize = 0;
        proof {
            if !same {
                assert(utf8_seq(cand@).len() != kv.len());
            }
        }
        while same && j < key.len()
            invariant
                i < keys@.len(),
                j <= key@.len(),
                same ==> cand@.len() == key@.len(),
                cand == keys@[i as int],
                kv == utf8_seq(key@),
                same ==> forall|t: int| 0 <= t < j ==> utf8_of(#[trigger] cand@[t]) == utf8_of(key@[t]),
                !same ==> utf8_seq(cand@) != kv,
            decreases key@.len() - j + (if same { 1int } else { 0int }),
        {
            if !crate::paths::same_name(&cand[j], &key[j]) {
                proof {
                    assert(utf8_seq(cand@)[j as int] != kv[j as int]);
                }
                same = false;
            } else {
                j = j + 1;
            }
        }
        proof {
            assert(kl[i as int] == utf8_seq(cand@));
            if same {
                assert(utf8_seq(cand@) =~= kv);
            } else if cand@.len() != key@.len() {
                assert(utf8_seq(cand@).len() != kv.len());
            }
        }
        if same {
            return true;
        }
        i = i + 1;
    }
    false
}

/// The directories below which a manifest selects recursively.
pub struct Classification {
    pub collapsed: Vec<Vec<String>>,
    pub expanded: Vec<Vec<String>>,
    pub filtered: Vec<Vec<String>>,
}

impl View for Classification {
    type V = Classes;

    open spec fn view(&self) -> Classes {
        Classes {
            collapsed: comps_list(self.collapsed@),
            expanded: comps_list(self.expanded@),
            filtered: comps_list(self.filtered@),
        }
    }
}

/// Adds a key to a list of keys.
fn push_key(keys: &mut Vec<Vec<String>>, key: Vec<String>)
    ensures
        comps_list(final(keys)@) == comps_list(old(keys)@) + seq![utf8_seq(key@)],
{
    let ghost kv = utf8_seq(key@);
    keys.push(key);
    proof {
        assert(comps_list(keys@) =~= comps_list(old(keys)@) + seq![kv]);
    }
}

/// Adds the classes of the directory `dir`, holding `entries`, and of the
/// blocks below it.
fn classify_into(entries: &Vec<Entry>, dir: &Vec<String>, depth: Option<usize>, c: &mut Classification)
    ensures
        final(c)@ == join_classes(old(c)@, classify(directives_of(entries@), utf8_seq(dir@), depth)),
    decreases entries,
{
    let ghost ds = directives_of(entries@);
    let ghost d = utf8_seq(dir@);
    let mut all = false;
    let mut filtered = false;
    let mut excludes = false;
    let mut i: usize = 0;
    while i < entries.len()
        invariant
            i <= entries@.len(),
            ds == directives_of(entries@),
            all == (exists|j: int| 0 <= j < i && #[trigger] ds[j] is RecursiveAll),
            filtered == (exists|j: int| 0 <= j < i && #[trigger] ds[j] is Recursive),
            excludes == (exists|j: int| 0 <= j < i && #[trigger] ds[j] is Exclude),
        decreases entries@.len() - i,
    {
        proof {
            assert(ds[i as int] == entries@[i as int]@);
        }
        match &entries[i] {
            Entry::IncludeRecursiveAll => {
                all = true;
            },
            Entry::IncludeRecursive => {
                filtered = true;
            },
            Entry::Exclude { .. } => {
                excludes = true;
            },
            _ => {},
        }
        i = i + 1;
    }
    if all {
        if depth.is_none() && !excludes {
            push_key(&mut c.collapsed, crate::resolver::copy_names(dir));
            proof {
                assert(c@ =~= join_classes(old(c)@, classify(ds, d, depth)));
            }
        } else {
            push_key(&mut c.expanded, crate::resolver::copy_names(dir));
            proof {
                assert(c@ =~= join_classes(old(c)@, classify(ds, d, depth)));
            }
        }
        return;
    }
    if filtered {
        push_key(&mut c.filtered, crate::resolver::copy_names(dir));
        proof {
            assert(c@ =~= join_classes(old(c)@, classify(ds, d, depth)));
        }
        return;
    }
    let mut i: usize = 0;
    proof {
        assert(join_classes(c@, classify_from(ds, d, depth, 0)) =~= join_classes(
            old(c)@,
            classify(ds, d, depth),
        ));
    }
    while i < entries.len()
        invariant
            i <= entries@.len(),
            ds == directives_of(entries@),
            d == utf8_seq(dir@),
            join_classes(c@, classify_from(ds, d, depth, i as int)) == join_classes(
                old(c)@,
                classify(ds, d, depth),
            ),
        decreases entries@.len() - i,
    {
        proof {
            assert(ds[i as int] == entries@[i as int]@);
        }
        match &entries[i] {
            Entry::Descend { path, entries: sub } => {
                proof {
                    assert(ds[i as int] == Directive::Descend(utf8_of(*path), directives_of(sub@))) by {
                        assert(entries@[i as int]@->Descend_1 =~= directives_of(sub@));
                    }
                }
                let key = key_join(dir, path);
                let ghost before = c@;
                proof {
                    assert(decreases_to!(entries => sub));
                }
                classify_into(sub, &key, depth, c);
                proof {
                    let a = classify(directives_of(sub@), utf8_seq(key@), depth);
                    let rest = classify_from(ds, d, depth, i + 1);
                    assert(join_classes(c@, rest) =~= join_classes(before, join_classes(a, rest)));
                }
            },
            _ => {},
        }
        i = i + 1;
    }
    proof {
        assert(join_classes(c@, no_classes()) =~= c@);
    }
}

/// Appends the short selection of the entries `es`, whose directory is
/// `parent`.
fn collect_short(es: &Vec<ResolvedEntry>, parent: &Vec<String>, c: &Classification, out: &mut Vec<OutputPath>)
    ensures
        outs_of(final(out)@) == outs_of(old(out)@) + short_collect(res_of(es@), utf8_seq(parent@), c@),
    decreases es,
{
    let ghost all = res_of(es@);
    let ghost pk = utf8_seq(parent@);
    let mut i: usize = 0;
    proof {
        assert(all.subrange(0, 0) =~= Seq::<Res>::empty());
        assert(outs_of(out@) =~= outs_of(old(out)@) + short_collect(all.subrange(0, 0), pk, c@));
    }
    while i < es.len()
        invariant
            i <= es@.len(),
            all == res_of(es@),
            pk == utf8_seq(parent@),
            outs_of(out@) == outs_of(old(out)@) + short_collect(all.subrange(0, i as int), pk, c@),
        decreases es@.len() - i,
    {
        let e = &es[i];
        let ghost ev = all[i as int];
        proof {
            assert(all.subrange(0, i + 1) =~= all.subrange(0, i as int) + seq![ev]);
            lemma_short_collect_add(all.subrange(0, i as int), seq![ev], pk, c@);
            lemma_short_collect_single(ev, pk, c@);
            lemma_terminals_single(ev);
            lemma_res_children(*e);
        }
        let name = file_name(&e.path);
        let key = crate::resolver::with_name(parent, &name);
        let ghost before = outs_of(out@);
        if contains_key(&c.filtered, &key) {
            if e.children.len() == 0 {
                out.push(output_of(e));
                proof {
                    assert(outs_of(out@) =~= before + seq![out_of(ev)]);
                }
            } else {
                collect_terminals(&e.children, out);
            }
        } else if contains_key(&c.expanded, &key) {
            if e.children.len() == 0 {
                out.push(output_of(e));
                proof {
                    assert(outs_of(out@) =~= before + seq![out_of(ev)]);
                }
            } else {
                collect_immediate(&e.children, out);
            }
        } else if e.children.len() == 0 || contains_key(&c.collapsed, &key) {
            out.push(output_of(e));
            proof {
                assert(outs_of(out@) =~= before + seq![out_of(ev)]);
            }
        } else {
            proof {
                assert(decreases_to!(es => es@[i as int].children));
            }
            collect_short(&e.children, &key, c, out);
        }
        i = i + 1;
    }
    proof {
        assert(all.subrange(0, es@.len() as int) =~= all);
    }
}

/// Select output paths from a resolved tree.
///
/// When `short` is false, the result contains terminal entries. When it is
/// true, complete recursive selections are collapsed to their highest selected
/// directory. The manifest and recursion depth must match those used to create
/// `tree`.
pub fn output_paths(
    tree: &ResolvedTree,
    manifest: &Manifest,
    recursive_depth: Option<usize>,
    short: bool,
) -> (r: Vec<OutputPath>)
    ensures
        outs_of(r@) == output_spec(
            utf8_of(tree.root),
            res_of(tree.entries@),
            manifest@,
            recursive_depth,
            short,
        ),
{
    let mut out: Vec<OutputPath> = Vec::new();
    proof {
        assert(outs_of(out@) =~= Seq::<Out>::empty());
    }
    if !short {
        collect_terminals(&tree.entries, &mut out);
        proof {
            assert(outs_of(out@) =~= terminals(res_of(tree.entries@)));
        }
        return out;
    }
    let mut c = Classification { collapsed: Vec::new(), expanded: Vec::new(), filtered: Vec::new() };
    let top: Vec<String> = Vec::new();
    proof {
        assert(c@ =~= no_classes());
        assert(utf8_seq(top@) =~= Seq::<Seq<u8>>::empty());
        assert(manifest@ == directives_of(manifest.entries@));
    }
    classify_into(&manifest.entries, &top, recursive_depth, &mut c);
    proof {
        assert(c@ =~= classify(manifest@, seq![], recursive_depth));
    }
    if contains_key(&c.collapsed, &top) {
        out.push(OutputPath { path: tree.root.clone(), kind: ResolvedEntryKind::Directory });
        proof {
            assert(outs_of(out@) =~= seq![Out { path: utf8_of(tree.root), kind: ResolvedEntryKind::Directory }]);
        }
    } else if contains_key(&c.filtered, &top) {
        collect_terminals(&tree.entries, &mut out);
        proof {
            assert(outs_of(out@) =~= terminals(res_of(tree.entries@)));
        }
    } else if contains_key(&c.expanded, &top) {
        collect_immediate(&tree.entries, &mut out);
        proof {
            assert(outs_of(out@) =~= immediate(res_of(tree.entries@)));
        }
    } else {
        collect_short(&tree.entries, &top, &c, &mut out);
        proof {
            assert(outs_of(out@) =~= short_collect(res_of(tree.entries@), seq![], c@));
        }
    }
    out
}

} // verus!
