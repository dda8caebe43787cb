//! Where a block stands does not change what it selects: the path of a
//! directory below the resolution root only names the facts that resolution
//! asks for, so a block `d { .. }` selects below `d` what its directives
//! select when `d` itself is the root. In particular, the `.gitignore` files
//! that a `**` meets inside a block apply to the paths below their own
//! directories, whatever the block's place.

use vstd::prelude::*;
use crate::manifest::Directive;
use crate::paths::{is_excluded, join_path, relative_components};
use crate::resolver::{
    child_stat, exclusions_below, exclusions_from, expands, find_sel, insert_literal, join_all_path,
    lower, merge_children, merge_listed, place_literal, probe_literal, put, read_children,
    read_names, recurse_children, recursion_rules, resolve_entries, resolve_from,
    resolve_recursive, rules_in, skipped_by_git, Sel, SpecStop,
};
use crate::fs::{child_index, node_at, FsNode, Probe, ResolvedEntryKind};
use crate::ignore::{ignored_by, parse_rules, Rule};
use crate::manifest::utf8_of;

verus! {

/// Whether two outcomes of resolution both stop, or both succeed with the
/// same selections.
pub open spec fn same_outcome<T>(a: Result<T, SpecStop>, b: Result<T, SpecStop>) -> bool {
    match (a, b) {
        (Ok(x), Ok(y)) => x == y,
        (Err(_), Err(_)) => true,
        _ => false,
    }
}

proof fn lemma_read_names_any_rel(
    n: FsNode,
    dir: Seq<u8>,
    rel1: Seq<Seq<u8>>,
    rel2: Seq<Seq<u8>>,
    names: Seq<String>,
    i: int,
    acc: Seq<Sel>,
)
    ensures
        same_outcome(read_names(n, dir, rel1, names, i, acc), read_names(n, dir, rel2, names, i, acc)),
    decreases names.len() - i,
{
    if 0 <= i < names.len() {
        let name = crate::manifest::utf8_of(names[i]);
        let path = join_path(dir, name);
        match child_stat(n, name) {
            Probe::Known(Some(kind)) => lemma_read_names_any_rel(
                n,
                dir,
                rel1,
                rel2,
                names,
                i + 1,
                put(acc, Sel { name, path, kind, children: seq![] }),
            ),
            _ => {},
        }
    }
}

proof fn lemma_read_children_any_rel(n: FsNode, dir: Seq<u8>, rel1: Seq<Seq<u8>>, rel2: Seq<Seq<u8>>)
    ensures
        same_outcome(read_children(n, dir, rel1), read_children(n, dir, rel2)),
{
    match n.listing {
        Probe::Known(names) => lemma_read_names_any_rel(n, dir, rel1, rel2, names@, 0, seq![]),
        _ => {},
    }
}

proof fn lemma_resolve_recursive_any_rel(
    n: FsNode,
    dir: Seq<u8>,
    rel1: Seq<Seq<u8>>,
    rel2: Seq<Seq<u8>>,
    local: Seq<Seq<u8>>,
    budget: Option<usize>,
    ex: Seq<Seq<Seq<u8>>>,
    git: Option<Seq<Rule>>,
)
    ensures
        same_outcome(
            resolve_recursive(n, dir, rel1, local, budget, ex, git),
            resolve_recursive(n, dir, rel2, local, budget, ex, git),
        ),
    decreases n, 1int, 0int,
{
    lemma_read_children_any_rel(n, dir, rel1, rel2);
    match read_children(n, dir, rel1) {
        Err(_) => {},
        Ok(cs) => {
            assert(read_children(n, dir, rel2) == Ok::<Seq<Sel>, SpecStop>(cs));
            assert(same_outcome(rules_in(n, dir, rel1, local, git), rules_in(n, dir, rel2, local, git)));
            match rules_in(n, dir, rel1, local, git) {
                Err(_) => {},
                Ok(g) => lemma_recurse_children_any_rel(
                    n,
                    rel1,
                    rel2,
                    local,
                    budget,
                    ex,
                    g,
                    cs,
                    0,
                    seq![],
                ),
            }
        },
    }
}

proof fn lemma_recurse_children_any_rel(
    n: FsNode,
    rel1: Seq<Seq<u8>>,
    rel2: Seq<Seq<u8>>,
    local: Seq<Seq<u8>>,
    budget: Option<usize>,
    ex: Seq<Seq<Seq<u8>>>,
    git: Option<Seq<Rule>>,
    cs: Seq<Sel>,
    i: int,
    acc: Seq<Sel>,
)
    ensures
        same_outcome(
            recurse_children(n, rel1, local, budget, ex, git, cs, i, acc),
            recurse_children(n, rel2, local, budget, ex, git, cs, i, acc),
        ),
    decreases n, 0int, cs.len() - i,
{
    if 0 <= i < cs.len() {
        let c = cs[i];
        let loc = local.push(c.name);
        if is_excluded(loc, ex) || skipped_by_git(git, loc, c.kind) {
            lemma_recurse_children_any_rel(n, rel1, rel2, local, budget, ex, git, cs, i + 1, acc);
        } else if expands(c.kind, budget) {
            let ci = child_index(n, c.name);
            if 0 <= ci < n.children.len() {
                assert(decreases_to!(n => n.children@[ci].node));
                lemma_resolve_recursive_any_rel(
                    n.children@[ci].node,
                    c.path,
                    rel1.push(c.name),
                    rel2.push(c.name),
                    loc,
                    lower(budget),
                    ex,
                    git,
                );
                match resolve_recursive(
                    n.children@[ci].node,
                    c.path,
                    rel1.push(c.name),
                    loc,
                    lower(budget),
                    ex,
                    git,
                ) {
                    Err(_) => {},
                    Ok(sub) => lemma_recurse_children_any_rel(
                        n,
                        rel1,
                        rel2,
                        local,
                        budget,
                        ex,
                        git,
                        cs,
                        i + 1,
                        put(acc, Sel { name: c.name, path: c.path, kind: c.kind, children: sub }),
                    ),
                }
            }
        } else {
            lemma_recurse_children_any_rel(n, rel1, rel2, local, budget, ex, git, cs, i + 1, put(acc, c));
        }
    }
}

proof fn lemma_probe_any_rel(
    n: FsNode,
    dir: Seq<u8>,
    rel1: Seq<Seq<u8>>,
    rel2: Seq<Seq<u8>>,
    comps: Seq<Seq<u8>>,
)
    ensures
        same_outcome(probe_literal(n, dir, rel1, comps), probe_literal(n, dir, rel2, comps)),
    decreases comps.len(),
{
    if comps.len() > 0 {
        let name = comps[0];
        match child_stat(n, name) {
            Probe::Known(Some(kind)) => if comps.drop_first().len() > 0 && kind
                == ResolvedEntryKind::Directory {
                lemma_probe_any_rel(
                    n.children@[child_index(n, name)].node,
                    join_path(dir, name),
                    rel1.push(name),
                    rel2.push(name),
                    comps.drop_first(),
                );
            },
            _ => {},
        }
    }
}

proof fn lemma_place_any_rel(
    m: Seq<Sel>,
    n: FsNode,
    dir: Seq<u8>,
    rel1: Seq<Seq<u8>>,
    rel2: Seq<Seq<u8>>,
    comps: Seq<Seq<u8>>,
    fin: Option<Seq<Sel>>,
)
    ensures
        same_outcome(
            place_literal(m, n, dir, rel1, comps, fin),
            place_literal(m, n, dir, rel2, comps, fin),
        ),
    decreases comps.len(),
{
    if comps.len() > 0 {
        let name = comps[0];
        let path = join_path(dir, name);
        let rest = comps.drop_first();
        match child_stat(n, name) {
            Probe::Known(Some(kind)) => {
                let i = find_sel(m, name);
                let e = if 0 <= i < m.len() {
                    m[i]
                } else {
                    Sel { name, path, kind, children: seq![] }
                };
                if rest.len() > 0 && kind == ResolvedEntryKind::Directory {
                    lemma_place_any_rel(
                        e.children,
                        n.children@[child_index(n, name)].node,
                        path,
                        rel1.push(name),
                        rel2.push(name),
                        rest,
                        fin,
                    );
                }
            },
            _ => {},
        }
    }
}

proof fn lemma_insert_any_rel(
    m: Seq<Sel>,
    n: FsNode,
    dir: Seq<u8>,
    rel1: Seq<Seq<u8>>,
    rel2: Seq<Seq<u8>>,
    comps: Seq<Seq<u8>>,
    fin: Option<Seq<Sel>>,
)
    ensures
        same_outcome(
            insert_literal(m, n, dir, rel1, comps, fin),
            insert_literal(m, n, dir, rel2, comps, fin),
        ),
{
    lemma_probe_any_rel(n, dir, rel1, rel2, comps);
    lemma_place_any_rel(m, n, dir, rel1, rel2, comps, fin);
}

proof fn lemma_resolve_entries_any_rel(
    n: FsNode,
    dir: Seq<u8>,
    rel1: Seq<Seq<u8>>,
    rel2: Seq<Seq<u8>>,
    ds: Seq<Directive>,
    depth: Option<usize>,
    global: Seq<Rule>,
    inh: Seq<Seq<Seq<u8>>>,
)
    ensures
        same_outcome(
            resolve_entries(n, dir, rel1, ds, depth, global, inh),
            resolve_entries(n, dir, rel2, ds, depth, global, inh),
        ),
    decreases ds, ds.len() + 1,
{
    match exclusions_from(ds, 0, inh) {
        Ok(ex) => lemma_resolve_from_any_rel(n, dir, rel1, rel2, ds, ex, depth, global, 0, seq![]),
        Err(_) => {},
    }
}

proof fn lemma_resolve_from_any_rel(
    n: FsNode,
    dir: Seq<u8>,
    rel1: Seq<Seq<u8>>,
    rel2: Seq<Seq<u8>>,
    ds: Seq<Directive>,
    ex: Seq<Seq<Seq<u8>>>,
    depth: Option<usize>,
    global: Seq<Rule>,
    i: int,
    m: Seq<Sel>,
)
    ensures
        same_outcome(
            resolve_from(n, dir, rel1, ds, ex, depth, global, i, m),
            resolve_from(n, dir, rel2, ds, ex, depth, global, i, m),
        ),
    decreases ds, ds.len() - i,
{
    if 0 <= i < ds.len() {
        match ds[i] {
            Directive::Include(p) => match relative_components(p) {
                None => {},
                Some(c) => if is_excluded(c, ex) {
                    lemma_resolve_from_any_rel(n, dir, rel1, rel2, ds, ex, depth, global, i + 1, m);
                } else {
                    lemma_insert_any_rel(m, n, dir, rel1, rel2, c, None);
                    match insert_literal(m, n, dir, rel1, c, None) {
                        Err(_) => {},
                        Ok(m2) => lemma_resolve_from_any_rel(
                            n,
                            dir,
                            rel1,
                            rel2,
                            ds,
                            ex,
                            depth,
                            global,
                            i + 1,
                            m2,
                        ),
                    }
                },
            },
            Directive::Exclude(_) => lemma_resolve_from_any_rel(
                n,
                dir,
                rel1,
                rel2,
                ds,
                ex,
                depth,
                global,
                i + 1,
                m,
            ),
            Directive::Children => {
                lemma_read_children_any_rel(n, dir, rel1, rel2);
                match read_children(n, dir, rel1) {
                    Err(_) => {},
                    Ok(cs) => lemma_resolve_from_any_rel(
                        n,
                        dir,
                        rel1,
                        rel2,
                        ds,
                        ex,
                        depth,
                        global,
                        i + 1,
                        merge_listed(m, cs, ex, 0),
                    ),
                }
            },
            Directive::Recursive | Directive::RecursiveAll => if depth == Some(0usize) {
                lemma_resolve_from_any_rel(n, dir, rel1, rel2, ds, ex, depth, global, i + 1, m);
            } else {
                let git = recursion_rules(ds[i], global);
                lemma_resolve_recursive_any_rel(n, dir, rel1, rel2, seq![], depth, ex, git);
                match resolve_recursive(n, dir, rel1, seq![], depth, ex, git) {
                    Err(_) => {},
                    Ok(rs) => lemma_resolve_from_any_rel(
                        n,
                        dir,
                        rel1,
                        rel2,
                        ds,
                        ex,
                        depth,
                        global,
                        i + 1,
                        merge_children(m, rs),
                    ),
                }
            },
            Directive::Descend(p, sub) => match relative_components(p) {
                None => {},
                Some(c) => if is_excluded(c, ex) {
                    lemma_resolve_from_any_rel(n, dir, rel1, rel2, ds, ex, depth, global, i + 1, m);
                } else {
                    match node_at(n, c) {
                        None => {},
                        Some(t) => match t.stat {
                            Probe::Known(Some(kind)) => if kind == ResolvedEntryKind::Directory {
                                let target = join_all_path(dir, c);
                                let below = exclusions_below(ex, c, 0);
                                assert(decreases_to!(ds => sub)) by {
                                    assert(decreases_to!(ds => ds[i]));
                                }
                                lemma_resolve_entries_any_rel(
                                    t,
                                    target,
                                    rel1 + c,
                                    rel2 + c,
                                    sub,
                                    depth,
                                    global,
                                    below,
                                );
                                match resolve_entries(t, target, rel1 + c, sub, depth, global, below) {
                                    Err(_) => {},
                                    Ok(children) => {
                                        lemma_insert_any_rel(m, n, dir, rel1, rel2, c, Some(children));
                                        match insert_literal(m, n, dir, rel1, c, Some(children)) {
                                            Err(_) => {},
                                            Ok(m2) => lemma_resolve_from_any_rel(
                                                n,
                                                dir,
                                                rel1,
                                                rel2,
                                                ds,
                                                ex,
                                                depth,
                                                global,
                                                i + 1,
                                                m2,
                                            ),
                                        }
                                    },
                                }
                            } else {
                                lemma_resolve_from_any_rel(
                                    n,
                                    dir,
                                    rel1,
                                    rel2,
                                    ds,
                                    ex,
                                    depth,
                                    global,
                                    i + 1,
                                    m,
                                );
                            },
                            Probe::Known(None) => lemma_resolve_from_any_rel(
                                n,
                                dir,
                                rel1,
                                rel2,
                                ds,
                                ex,
                                depth,
                                global,
                                i + 1,
                                m,
                            ),
                            _ => {},
                        },
                    }
                },
            },
        }
    }
}

/// Relocation: the directives of a block select in the directory `n` at
/// `dir` what they select when that directory is itself the resolution
/// root. Whether resolution stops does not depend on the place either; only
/// the facts that it asks for are named by the directory's path below the
/// root. So `d { ** }` at the root `R` selects below `R/d` what `**` selects
/// at the root `R/d`, and the `.gitignore` rules it meets ignore the same
/// entries in both places.
pub proof fn law_blocks_select_the_same_wherever_they_stand(
    n: FsNode,
    dir: Seq<u8>,
    rel: Seq<Seq<u8>>,
    ds: Seq<Directive>,
    depth: Option<usize>,
    global: Seq<Rule>,
    inherited: Seq<Seq<Seq<u8>>>,
)
    ensures
        same_outcome(
            resolve_entries(n, dir, rel, ds, depth, global, inherited),
            resolve_entries(n, dir, seq![], ds, depth, global, inherited),
        ),
{
    lemma_resolve_entries_any_rel(n, dir, rel, seq![], ds, depth, global, inherited);
}

/// The recursion of `**` or `***` below the directory `n` selects the same
/// entries at every place of that directory below the resolution root.
pub proof fn law_recursion_selects_the_same_wherever_it_starts(
    n: FsNode,
    dir: Seq<u8>,
    rel1: Seq<Seq<u8>>,
    rel2: Seq<Seq<u8>>,
    budget: Option<usize>,
    exclusions: Seq<Seq<Seq<u8>>>,
    git: Option<Seq<Rule>>,
)
    ensures
        same_outcome(
            resolve_recursive(n, dir, rel1, seq![], budget, exclusions, git),
            resolve_recursive(n, dir, rel2, seq![], budget, exclusions, git),
        ),
{
    lemma_resolve_recursive_any_rel(n, dir, rel1, rel2, seq![], budget, exclusions, git);
}

/// Rules added after others decide a path that they ignore.
proof fn lemma_later_rules_ignore(a: Seq<Rule>, b: Seq<Rule>, p: Seq<Seq<u8>>, is_dir: bool)
    requires
        ignored_by(b, p, is_dir),
    ensures
        ignored_by(a + b, p, is_dir),
    decreases b.len(),
{
    assert(b.len() > 0);
    assert((a + b).last() == b.last());
    assert((a + b).drop_last() =~= a + b.drop_last());
    if !crate::ignore::rule_matches(b.last(), p, is_dir) {
        lemma_later_rules_ignore(a, b.drop_last(), p, is_dir);
    }
}

/// Whether no entry of `s`, in the directory at `local`, is ignored by `own`.
pub open spec fn none_ignored(s: Seq<Sel>, own: Seq<Rule>, local: Seq<Seq<u8>>) -> bool {
    forall|k: int|
        0 <= k < s.len() ==> !ignored_by(
            own,
            local.push(#[trigger] s[k].name),
            s[k].kind == ResolvedEntryKind::Directory,
        )
}

proof fn lemma_put_none_ignored(m: Seq<Sel>, e: Sel, own: Seq<Rule>, local: Seq<Seq<u8>>)
    requires
        none_ignored(m, own, local),
        !ignored_by(own, local.push(e.name), e.kind == ResolvedEntryKind::Directory),
    ensures
        none_ignored(put(m, e), own, local),
{
    crate::guarantees::lemma_put_members(m, e);
    let p = put(m, e);
    assert forall|k: int| 0 <= k < p.len() implies !ignored_by(
        own,
        local.push(#[trigger] p[k].name),
        p[k].kind == ResolvedEntryKind::Directory,
    ) by {
        if p[k] != e {
            let j = choose|j: int| 0 <= j < m.len() && m[j] == p[k];
            assert(m[j].name == p[k].name);
        }
    }
}

proof fn lemma_recurse_children_none_ignored(
    n: FsNode,
    rel: Seq<Seq<u8>>,
    local: Seq<Seq<u8>>,
    budget: Option<usize>,
    ex: Seq<Seq<Seq<u8>>>,
    outer: Seq<Rule>,
    own: Seq<Rule>,
    cs: Seq<Sel>,
    i: int,
    acc: Seq<Sel>,
)
    requires
        none_ignored(acc, own, local),
    ensures
        recurse_children(n, rel, local, budget, ex, Some(outer + own), cs, i, acc) matches Ok(r)
            ==> none_ignored(r, own, local),
    decreases cs.len() - i,
{
    let git = Some(outer + own);
    if 0 <= i < cs.len() {
        let c = cs[i];
        let loc = local.push(c.name);
        let is_dir = c.kind == ResolvedEntryKind::Directory;
        if is_excluded(loc, ex) || skipped_by_git(git, loc, c.kind) {
            lemma_recurse_children_none_ignored(n, rel, local, budget, ex, outer, own, cs, i + 1, acc);
        } else {
            if ignored_by(own, loc, is_dir) {
                lemma_later_rules_ignore(outer, own, loc, is_dir);
            }
            if expands(c.kind, budget) {
                let ci = child_index(n, c.name);
                if 0 <= ci < n.children.len() {
                    match resolve_recursive(
                        n.children@[ci].node,
                        c.path,
                        rel.push(c.name),
                        loc,
                        lower(budget),
                        ex,
                        git,
                    ) {
                        Err(_) => {},
                        Ok(sub) => {
                            let e = Sel { name: c.name, path: c.path, kind: c.kind, children: sub };
                            lemma_put_none_ignored(acc, e, own, local);
                            lemma_recurse_children_none_ignored(
                                n,
                                rel,
                                local,
                                budget,
                                ex,
                                outer,
                                own,
                                cs,
                                i + 1,
                                put(acc, e),
                            );
                        },
                    }
                }
            } else {
                lemma_put_none_ignored(acc, c, own, local);
                lemma_recurse_children_none_ignored(
                    n,
                    rel,
                    local,
                    budget,
                    ex,
                    outer,
                    own,
                    cs,
                    i + 1,
                    put(acc, c),
                );
            }
        }
    }
}

/// The rules of a directory's own `.gitignore` apply to its entries by their
/// path from where `**` started (`local`), wherever that directory stands
/// below the resolution root: when `**` honours git's rules, no entry that
/// they ignore is selected in that directory.
pub proof fn law_own_gitignore_applies_to_the_directory(
    n: FsNode,
    dir: Seq<u8>,
    rel: Seq<Seq<u8>>,
    local: Seq<Seq<u8>>,
    budget: Option<usize>,
    exclusions: Seq<Seq<Seq<u8>>>,
    outer: Seq<Rule>,
    text: String,
)
    requires
        n.ignore_file == Probe::Known(Some(text)),
    ensures
        resolve_recursive(n, dir, rel, local, budget, exclusions, Some(outer)) matches Ok(r)
            ==> none_ignored(r, parse_rules(utf8_of(text), local), local),
{
    let own = parse_rules(utf8_of(text), local);
    match read_children(n, dir, rel) {
        Err(_) => {},
        Ok(cs) => {
            assert(rules_in(n, dir, rel, local, Some(outer)) == Ok::<Option<Seq<Rule>>, SpecStop>(
                Some(outer + own),
            ));
            lemma_recurse_children_none_ignored(
                n,
                rel,
                local,
                budget,
                exclusions,
                outer,
                own,
                cs,
                0,
                seq![],
            );
        },
    }
}

} // verus!
