//! What resolution guarantees for every manifest and every snapshot of a
//! filesystem.

use vstd::prelude::*;
use crate::manifest::Directive;
use crate::paths::relative_components;
use crate::resolver::{
    child_stat, place_literal, probe_literal, exclusions_from, expands, find_sel, find_sel_from, insert_literal, insert_pos,
    insert_pos_from,
    lemma_find_sel_from, lemma_insert_pos_from, lower, merge_adds, merge_children, merge_entry,
    rebuild,
    merge_listed, put, read_children, read_names, recurse_children, resolution_spec,
    exclusions_below, resolve_entries, resolve_from, resolve_recursive, join_all_path, strip, Res, Sel,
    SpecRequest, SpecStop, recursion_rules, rules_in, skipped_by_git, git_dir_name,
};
use crate::fs::{child_index, ignore_at, listing_at, node_at, stat_at, FsNode, Probe, ResolvedEntryKind};
use crate::ignore::Rule;
use crate::paths::{bytes_lt, is_excluded, is_normal_name, join_path};

verus! {

/// The path that a directive names, if it names one.
pub open spec fn directive_path(d: Directive) -> Option<Seq<u8>> {
    match d {
        Directive::Include(p) => Some(p),
        Directive::Exclude(p) => Some(p),
        Directive::Descend(p, _) => Some(p),
        _ => None,
    }
}

/// Whether a directive names a path that is absolute, climbs out with `..`,
/// or names nothing.
pub open spec fn has_invalid_path(d: Directive) -> bool {
    match directive_path(d) {
        Some(p) => relative_components(p) is None,
        None => false,
    }
}

proof fn lemma_exclusions_reject(ds: Seq<Directive>, i: int, acc: Seq<Seq<Seq<u8>>>, j: int)
    requires
        0 <= i <= j < ds.len(),
        ds[j] is Exclude,
        has_invalid_path(ds[j]),
    ensures
        exclusions_from(ds, i, acc) is Err,
    decreases ds.len() - i,
{
    if i < j {
        match ds[i] {
            Directive::Exclude(p) => match relative_components(p) {
                Some(c) => lemma_exclusions_reject(ds, i + 1, acc.push(c), j),
                None => {},
            },
            _ => lemma_exclusions_reject(ds, i + 1, acc, j),
        }
    }
}

proof fn lemma_resolve_from_rejects(
    n: FsNode,
    dir: Seq<u8>,
    rel: Seq<Seq<u8>>,
    ds: Seq<Directive>,
    ex: Seq<Seq<Seq<u8>>>,
    depth: Option<usize>,
    global: Seq<Rule>,
    i: int,
    m: Seq<Sel>,
    j: int,
)
    requires
        0 <= i <= j < ds.len(),
        !(ds[j] is Exclude),
        has_invalid_path(ds[j]),
    ensures
        !(resolve_from(n, dir, rel, ds, ex, depth, global, i, m) is Ok),
    decreases ds.len() - i,
{
    if i < j {
        match ds[i] {
            Directive::Include(p) => match relative_components(p) {
                None => {},
                Some(c) => if crate::paths::is_excluded(c, ex) {
                    lemma_resolve_from_rejects(n, dir, rel, ds, ex, depth, global, i + 1, m, j);
                } else {
                    match insert_literal(m, n, dir, rel, c, None) {
                        Err(_) => {},
                        Ok(m2) => lemma_resolve_from_rejects(n, dir, rel, ds, ex, depth, global, i + 1, m2, j),
                    }
                },
            },
            Directive::Exclude(_) => lemma_resolve_from_rejects(
                n,
                dir,
                rel,
                ds,
                ex,
                depth,
                global,
                i + 1,
                m,
                j,
            ),
            Directive::Children => match read_children(n, dir, rel) {
                Err(_) => {},
                Ok(cs) => lemma_resolve_from_rejects(
                    n,
                    dir,
                    rel,
                    ds,
                    ex,
                    depth,
                    global,
                    i + 1,
                    merge_listed(m, cs, ex, 0),
                    j,
                ),
            },
            Directive::Recursive | Directive::RecursiveAll => if depth == Some(0usize) {
                lemma_resolve_from_rejects(n, dir, rel, ds, ex, depth, global, i + 1, m, j);
            } else {
                match resolve_recursive(n, dir, rel, seq![], depth, ex, recursion_rules(ds[i], global)) {
                    Err(_) => {},
                    Ok(rs) => lemma_resolve_from_rejects(
                        n,
                        dir,
                        rel,
                        ds,
                        ex,
                        depth,
                        global,
                        i + 1,
                        merge_children(m, rs),
                        j,
                    ),
                }
            },
            Directive::Descend(p, sub) => match relative_components(p) {
                None => {},
                Some(c) => if crate::paths::is_excluded(c, ex) {
                    lemma_resolve_from_rejects(n, dir, rel, ds, ex, depth, global, i + 1, m, j);
                } else {
                    match node_at(n, c) {
                        None => {},
                        Some(t) => match t.stat {
                            Probe::Known(None) => lemma_resolve_from_rejects(
                                n,
                                dir,
                                rel,
                                ds,
                                ex,
                                depth,
                                global,
                                i + 1,
                                m,
                                j,
                            ),
                            Probe::Known(Some(kind)) => if kind != ResolvedEntryKind::Directory {
                                lemma_resolve_from_rejects(n, dir, rel, ds, ex, depth, global, i + 1, m, j);
                            } else {
                                match resolve_entries(t, join_all_path(dir, c), rel + c, sub, depth, global, exclusions_below(ex, c, 0)) {
                                    Err(_) => {},
                                    Ok(children) => match insert_literal(
                                        m,
                                        n,
                                        dir,
                                        rel,
                                        c,
                                        Some(children),
                                    ) {
                                        Err(_) => {},
                                        Ok(m2) => lemma_resolve_from_rejects(
                                            n,
                                            dir,
                                            rel,
                                            ds,
                                            ex,
                                            depth,
                                            global,
                                            i + 1,
                                            m2,
                                            j,
                                        ),
                                    },
                                }
                            },
                            _ => {},
                        },
                    }
                },
            },
        }
    }
}

/// A manifest that names, at its top level, a path that is absolute, climbs
/// out of its directory with `..`, or names nothing, never resolves: whatever
/// the filesystem holds, resolution fails or stops for more input.
pub proof fn law_invalid_paths_never_resolve(
    ds: Seq<Directive>,
    root: Seq<u8>,
    depth: Option<usize>,
    global: Seq<Rule>,
    fs: FsNode,
    j: int,
)
    requires
        0 <= j < ds.len(),
        has_invalid_path(ds[j]),
    ensures
        !(resolution_spec(ds, root, depth, global, fs) is Ok),
{
    if ds[j] is Exclude {
        lemma_exclusions_reject(ds, 0, seq![], j);
    } else {
        match exclusions_from(ds, 0, seq![]) {
            Err(_) => {},
            Ok(ex) => lemma_resolve_from_rejects(fs, root, seq![], ds, ex, depth, global, 0, seq![], j),
        }
    }
}

// ---------------------------------------------------------------------------
// Requests for more input.

/// Whether a stop is a failure, or asks for a fact that the snapshot `fs`
/// does not hold yet.
pub open spec fn asks_for_unknown(fs: FsNode, s: SpecStop) -> bool {
    match s {
        SpecStop::Need(SpecRequest::Stat(p)) => stat_at(fs, p) is Unknown,
        SpecStop::Need(SpecRequest::List(p)) => listing_at(fs, p) is Unknown,
        SpecStop::Need(SpecRequest::IgnoreFile(p)) => ignore_at(fs, p) is Unknown,
        SpecStop::Fail(_) => true,
    }
}

/// Whether a result, if it stopped, stopped by failing or by asking for
/// something unknown.
pub open spec fn stops_well<T>(fs: FsNode, r: Result<T, SpecStop>) -> bool {
    match r {
        Ok(_) => true,
        Err(s) => asks_for_unknown(fs, s),
    }
}

pub proof fn lemma_node_at_append(fs: FsNode, rel: Seq<Seq<u8>>, c: Seq<Seq<u8>>)
    ensures
        node_at(fs, rel + c) == match node_at(fs, rel) {
            Some(n) => node_at(n, c),
            None => None,
        },
    decreases rel.len(),
{
    if rel.len() == 0 {
        assert(rel + c =~= c);
    } else {
        assert((rel + c)[0] == rel[0]);
        assert((rel + c).drop_first() =~= rel.drop_first() + c);
        let i = child_index(fs, rel[0]);
        if 0 <= i < fs.children.len() {
            lemma_node_at_append(fs.children@[i].node, rel.drop_first(), c);
        }
    }
}

/// What is known at `rel` pushed with `name`, from what is known at `rel`.
proof fn lemma_node_at_child(fs: FsNode, rel: Seq<Seq<u8>>, n: FsNode, name: Seq<u8>)
    requires
        node_at(fs, rel) == Some(n),
    ensures
        node_at(fs, rel.push(name)) == {
            let i = child_index(n, name);
            if 0 <= i < n.children.len() {
                Some(n.children@[i].node)
            } else {
                None::<FsNode>
            }
        },
{
    assert(rel.push(name) =~= rel + seq![name]);
    lemma_node_at_append(fs, rel, seq![name]);
    let one = seq![name];
    assert(one[0] == name);
    assert(one.drop_first() =~= Seq::<Seq<u8>>::empty());
    let i = child_index(n, name);
    if 0 <= i < n.children.len() {
        assert(node_at(n.children@[i].node, Seq::<Seq<u8>>::empty()) == Some(n.children@[i].node));
    }
}

proof fn lemma_read_names_stops_well(
    fs: FsNode,
    n: FsNode,
    dir: Seq<u8>,
    rel: Seq<Seq<u8>>,
    names: Seq<String>,
    i: int,
    acc: Seq<Sel>,
)
    requires
        node_at(fs, rel) == Some(n),
    ensures
        stops_well(fs, read_names(n, dir, rel, names, i, acc)),
    decreases names.len() - i,
{
    if 0 <= i < names.len() {
        let name = crate::manifest::utf8_of(names[i]);
        lemma_node_at_child(fs, rel, n, name);
        match child_stat(n, name) {
            Probe::Known(Some(kind)) => lemma_read_names_stops_well(
                fs,
                n,
                dir,
                rel,
                names,
                i + 1,
                put(
                    acc,
                    Sel { name, path: crate::paths::join_path(dir, name), kind, children: seq![] },
                ),
            ),
            _ => {},
        }
    }
}

proof fn lemma_read_children_stops_well(fs: FsNode, n: FsNode, dir: Seq<u8>, rel: Seq<Seq<u8>>)
    requires
        node_at(fs, rel) == Some(n),
    ensures
        stops_well(fs, read_children(n, dir, rel)),
{
    match n.listing {
        Probe::Known(names) => lemma_read_names_stops_well(fs, n, dir, rel, names@, 0, seq![]),
        _ => {},
    }
}

proof fn lemma_resolve_recursive_stops_well(
    fs: FsNode,
    n: FsNode,
    dir: Seq<u8>,
    rel: Seq<Seq<u8>>,
    local: Seq<Seq<u8>>,
    budget: Option<usize>,
    exclusions: Seq<Seq<Seq<u8>>>,
    git: Option<Seq<Rule>>,
)
    requires
        node_at(fs, rel) == Some(n),
    ensures
        stops_well(fs, resolve_recursive(n, dir, rel, local, budget, exclusions, git)),
    decreases n, 1int, 0int,
{
    lemma_read_children_stops_well(fs, n, dir, rel);
    match read_children(n, dir, rel) {
        Err(_) => {},
        Ok(cs) => match rules_in(n, dir, rel, local, git) {
            Err(_) => {},
            Ok(g) => lemma_recurse_children_stops_well(
            fs,
            n,
            rel,
            local,
            budget,
            exclusions,
            g,
            cs,
            0,
            seq![],
        ),
        },
    }
}

proof fn lemma_recurse_children_stops_well(
    fs: FsNode,
    n: FsNode,
    rel: Seq<Seq<u8>>,
    local: Seq<Seq<u8>>,
    budget: Option<usize>,
    exclusions: Seq<Seq<Seq<u8>>>,
    git: Option<Seq<Rule>>,
    cs: Seq<Sel>,
    i: int,
    acc: Seq<Sel>,
)
    requires
        node_at(fs, rel) == Some(n),
    ensures
        stops_well(fs, recurse_children(n, rel, local, budget, exclusions, git, cs, i, acc)),
    decreases n, 0int, cs.len() - i,
{
    if 0 <= i < cs.len() {
        let c = cs[i];
        let loc = local.push(c.name);
        if is_excluded(loc, exclusions) || skipped_by_git(git, loc, c.kind) {
            lemma_recurse_children_stops_well(fs, n, rel, local, budget, exclusions, git, cs, i + 1, acc);
        } else if expands(c.kind, budget) {
            let ci = child_index(n, c.name);
            lemma_node_at_child(fs, rel, n, c.name);
            if 0 <= ci < n.children.len() {
                assert(decreases_to!(n => n.children@[ci].node));
                lemma_resolve_recursive_stops_well(
                    fs,
                    n.children@[ci].node,
                    c.path,
                    rel.push(c.name),
                    loc,
                    lower(budget),
                    exclusions,
                    git,
                );
                match resolve_recursive(
                    n.children@[ci].node,
                    c.path,
                    rel.push(c.name),
                    loc,
                    lower(budget),
                    exclusions,
                    git,
                ) {
                    Err(_) => {},
                    Ok(sub) => lemma_recurse_children_stops_well(
                        fs,
                        n,
                        rel,
                        local,
                        budget,
                        exclusions,
                        git,
                        cs,
                        i + 1,
                        put(acc, Sel { name: c.name, path: c.path, kind: c.kind, children: sub }),
                    ),
                }
            }
        } else {
            lemma_recurse_children_stops_well(
                fs,
                n,
                rel,
                local,
                budget,
                exclusions,
                git,
                cs,
                i + 1,
                put(acc, c),
            );
        }
    }
}

proof fn lemma_place_literal_stops_well(
    fs: FsNode,
    m: Seq<Sel>,
    n: FsNode,
    dir: Seq<u8>,
    rel: Seq<Seq<u8>>,
    comps: Seq<Seq<u8>>,
    fin: Option<Seq<Sel>>,
)
    requires
        node_at(fs, rel) == Some(n),
    ensures
        stops_well(fs, place_literal(m, n, dir, rel, comps, fin)),
    decreases comps.len(),
{
    if comps.len() > 0 {
        let name = comps[0];
        let path = crate::paths::join_path(dir, name);
        let rest = comps.drop_first();
        lemma_node_at_child(fs, rel, n, name);
        match child_stat(n, name) {
            Probe::Known(Some(kind)) => {
                let i = find_sel(m, name);
                let e = if 0 <= i < m.len() {
                    m[i]
                } else {
                    Sel { name, path, kind, children: seq![] }
                };
                if rest.len() > 0 && kind == ResolvedEntryKind::Directory {
                    let ci = child_index(n, name);
                    lemma_place_literal_stops_well(
                        fs,
                        e.children,
                        n.children@[ci].node,
                        path,
                        rel.push(name),
                        rest,
                        fin,
                    );
                }
            },
            _ => {},
        }
    }
}

proof fn lemma_probe_stops_well(
    fs: FsNode,
    n: FsNode,
    dir: Seq<u8>,
    rel: Seq<Seq<u8>>,
    comps: Seq<Seq<u8>>,
)
    requires
        node_at(fs, rel) == Some(n),
    ensures
        stops_well(fs, probe_literal(n, dir, rel, comps)),
    decreases comps.len(),
{
    if comps.len() > 0 {
        let name = comps[0];
        lemma_node_at_child(fs, rel, n, name);
        match child_stat(n, name) {
            Probe::Known(Some(kind)) => {
                if comps.drop_first().len() > 0 && kind == ResolvedEntryKind::Directory {
                    let ci = child_index(n, name);
                    lemma_probe_stops_well(
                        fs,
                        n.children@[ci].node,
                        crate::paths::join_path(dir, name),
                        rel.push(name),
                        comps.drop_first(),
                    );
                }
            },
            _ => {},
        }
    }
}

proof fn lemma_insert_literal_stops_well(
    fs: FsNode,
    m: Seq<Sel>,
    n: FsNode,
    dir: Seq<u8>,
    rel: Seq<Seq<u8>>,
    comps: Seq<Seq<u8>>,
    fin: Option<Seq<Sel>>,
)
    requires
        node_at(fs, rel) == Some(n),
    ensures
        stops_well(fs, insert_literal(m, n, dir, rel, comps, fin)),
{
    lemma_probe_stops_well(fs, n, dir, rel, comps);
    lemma_place_literal_stops_well(fs, m, n, dir, rel, comps, fin);
}

proof fn lemma_resolve_entries_stops_well(
    fs: FsNode,
    n: FsNode,
    dir: Seq<u8>,
    rel: Seq<Seq<u8>>,
    ds: Seq<Directive>,
    depth: Option<usize>,
    global: Seq<Rule>,
    inh: Seq<Seq<Seq<u8>>>,
)
    requires
        node_at(fs, rel) == Some(n),
    ensures
        stops_well(fs, resolve_entries(n, dir, rel, ds, depth, global, inh)),
    decreases ds, ds.len() + 1,
{
    match exclusions_from(ds, 0, inh) {
        Err(_) => {},
        Ok(ex) => lemma_resolve_from_stops_well(fs, n, dir, rel, ds, ex, depth, global, 0, seq![]),
    }
}

proof fn lemma_resolve_from_stops_well(
    fs: FsNode,
    n: FsNode,
    dir: Seq<u8>,
    rel: Seq<Seq<u8>>,
    ds: Seq<Directive>,
    ex: Seq<Seq<Seq<u8>>>,
    depth: Option<usize>,
    global: Seq<Rule>,
    i: int,
    m: Seq<Sel>,
)
    requires
        node_at(fs, rel) == Some(n),
    ensures
        stops_well(fs, resolve_from(n, dir, rel, ds, ex, depth, global, i, m)),
    decreases ds, ds.len() - i,
{
    if 0 <= i < ds.len() {
        match ds[i] {
            Directive::Include(p) => match relative_components(p) {
                None => {},
                Some(c) => if is_excluded(c, ex) {
                    lemma_resolve_from_stops_well(fs, n, dir, rel, ds, ex, depth, global, i + 1, m);
                } else {
                    lemma_insert_literal_stops_well(fs, m, n, dir, rel, c, None);
                    match insert_literal(m, n, dir, rel, c, None) {
                        Err(_) => {},
                        Ok(m2) => lemma_resolve_from_stops_well(
                            fs,
                            n,
                            dir,
                            rel,
                            ds,
                            ex,
                            depth,
                            global,
                            i + 1,
                            m2,
                        ),
                    }
                },
            },
            Directive::Exclude(_) => lemma_resolve_from_stops_well(
                fs,
                n,
                dir,
                rel,
                ds,
                ex,
                depth,
                global,
                i + 1,
                m,
            ),
            Directive::Children => {
                lemma_read_children_stops_well(fs, n, dir, rel);
                match read_children(n, dir, rel) {
                    Err(_) => {},
                    Ok(cs) => lemma_resolve_from_stops_well(
                        fs,
                        n,
                        dir,
                        rel,
                        ds,
                        ex,
                        depth,
                        global,
                        i + 1,
                        merge_listed(m, cs, ex, 0),
                    ),
                }
            },
            Directive::Recursive | Directive::RecursiveAll => if depth == Some(0usize) {
                lemma_resolve_from_stops_well(fs, n, dir, rel, ds, ex, depth, global, i + 1, m);
            } else {
                lemma_resolve_recursive_stops_well(fs, n, dir, rel, seq![], depth, ex, recursion_rules(ds[i], global));
                match resolve_recursive(n, dir, rel, seq![], depth, ex, recursion_rules(ds[i], global)) {
                    Err(_) => {},
                    Ok(rs) => lemma_resolve_from_stops_well(
                        fs,
                        n,
                        dir,
                        rel,
                        ds,
                        ex,
                        depth,
                        global,
                        i + 1,
                        merge_children(m, rs),
                    ),
                }
            },
            Directive::Descend(p, sub) => match relative_components(p) {
                None => {},
                Some(c) => if is_excluded(c, ex) {
                    lemma_resolve_from_stops_well(fs, n, dir, rel, ds, ex, depth, global, i + 1, m);
                } else {
                    lemma_node_at_append(fs, rel, c);
                    match node_at(n, c) {
                        None => {},
                        Some(t) => match t.stat {
                            Probe::Known(None) => lemma_resolve_from_stops_well(
                                fs,
                                n,
                                dir,
                                rel,
                                ds,
                                ex,
                                depth,
                                global,
                                i + 1,
                                m,
                            ),
                            Probe::Known(Some(kind)) => if kind != ResolvedEntryKind::Directory {
                                lemma_resolve_from_stops_well(
                                    fs,
                                    n,
                                    dir,
                                    rel,
                                    ds,
                                    ex,
                                    depth,
                                    global,
                                    i + 1,
                                    m,
                                );
                            } else {
                                assert(decreases_to!(ds => sub));
                                lemma_resolve_entries_stops_well(
                                    fs,
                                    t,
                                    join_all_path(dir, c),
                                    rel + c,
                                    sub,
                                    depth,
                                    global,
                                    exclusions_below(ex, c, 0),
                                );
                                match resolve_entries(t, join_all_path(dir, c), rel + c, sub, depth, global, exclusions_below(ex, c, 0)) {
                                    Err(_) => {},
                                    Ok(children) => {
                                        lemma_insert_literal_stops_well(
                                            fs,
                                            m,
                                            n,
                                            dir,
                                            rel,
                                            c,
                                            Some(children),
                                        );
                                        match insert_literal(m, n, dir, rel, c, Some(children)) {
                                            Err(_) => {},
                                            Ok(m2) => lemma_resolve_from_stops_well(
                                                fs,
                                                n,
                                                dir,
                                                rel,
                                                ds,
                                                ex,
                                                depth,
                                                global,
                                                i + 1,
                                                m2,
                                            ),
                                        }
                                    },
                                }
                            },
                            _ => {},
                        },
                    }
                },
            },
        }
    }
}

/// Every fact that resolution asks for is one that the snapshot does not
/// hold yet: a request to inspect a path comes only when the kind of the
/// entry there is unknown, a request to list a directory only when its
/// listing is unknown, and a request for a directory's `.gitignore` only when
/// its text is unknown. Recording the answer therefore always adds to what is
/// known.
pub proof fn law_requests_name_unknown_facts(
    ds: Seq<Directive>,
    root: Seq<u8>,
    depth: Option<usize>,
    global: Seq<Rule>,
    fs: FsNode,
)
    ensures
        resolution_spec(ds, root, depth, global, fs) matches Err(SpecStop::Need(SpecRequest::Stat(p)))
            ==> stat_at(fs, p) is Unknown,
        resolution_spec(ds, root, depth, global, fs) matches Err(SpecStop::Need(SpecRequest::List(p)))
            ==> listing_at(fs, p) is Unknown,
        resolution_spec(ds, root, depth, global, fs) matches Err(
            SpecStop::Need(SpecRequest::IgnoreFile(p)),
        ) ==> ignore_at(fs, p) is Unknown,
{
    assert(node_at(fs, seq![]) == Some(fs));
    lemma_resolve_entries_stops_well(fs, fs, root, seq![], ds, depth, global, seq![]);
}

// ---------------------------------------------------------------------------
// Recursive selections.

/// Every entry of `put(m, e)` is `e` or an entry of `m`.
pub proof fn lemma_put_members(m: Seq<Sel>, e: Sel)
    ensures
        forall|k: int|
            0 <= k < put(m, e).len() ==> #[trigger] put(m, e)[k] == e || m.contains(put(m, e)[k]),
{
    lemma_find_sel_from(m, e.name, 0);
    lemma_insert_pos_from(m, e.name, 0);
    let i = find_sel(m, e.name);
    if 0 <= i < m.len() {
        assert forall|k: int| 0 <= k < put(m, e).len() implies #[trigger] put(m, e)[k] == e
            || m.contains(put(m, e)[k]) by {
            if k != i {
                assert(put(m, e)[k] == m[k]);
            }
        }
    } else {
        let pos = insert_pos(m, e.name);
        assert forall|k: int| 0 <= k < put(m, e).len() implies #[trigger] put(m, e)[k] == e
            || m.contains(put(m, e)[k]) by {
            if k < pos {
                assert(put(m, e)[k] == m[k]);
            } else if k > pos {
                assert(put(m, e)[k] == m[k - 1]);
            }
        }
    }
}

/// Whether an entry at `local` (relative to the directory of a block) and
/// everything selected below it lie outside the exclusions `ex`.
pub open spec fn sel_avoids(x: Sel, local: Seq<Seq<u8>>, ex: Seq<Seq<Seq<u8>>>) -> bool
    decreases x,
{
    &&& !is_excluded(local.push(x.name), ex)
    &&& forall|i: int|
        0 <= i < x.children.len() ==> sel_avoids(#[trigger] x.children[i], local.push(x.name), ex)
}

/// Whether entries in the directory at `local` avoid the exclusions `ex`.
pub open spec fn avoids_exclusions(s: Seq<Sel>, local: Seq<Seq<u8>>, ex: Seq<Seq<Seq<u8>>>) -> bool {
    forall|i: int| 0 <= i < s.len() ==> sel_avoids(#[trigger] s[i], local, ex)
}

/// Whether entries reach at most `d` levels: each counts one level, and what
/// is selected below it counts from there.
pub open spec fn within_depth(s: Seq<Sel>, d: nat) -> bool
    decreases s,
{
    forall|i: int| 0 <= i < s.len() ==> sel_within_depth(#[trigger] s[i], d)
}

/// Whether an entry and what is selected below it reach at most `d` levels.
pub open spec fn sel_within_depth(x: Sel, d: nat) -> bool
    decreases x,
{
    d >= 1 && within_depth(x.children, (d - 1) as nat)
}

/// Whether no entry has selected children yet.
pub open spec fn all_bare(s: Seq<Sel>) -> bool {
    forall|i: int| 0 <= i < s.len() ==> (#[trigger] s[i]).children.len() == 0
}

proof fn lemma_put_keeps(m: Seq<Sel>, e: Sel, local: Seq<Seq<u8>>, ex: Seq<Seq<Seq<u8>>>, d: nat)
    ensures
        avoids_exclusions(m, local, ex) && sel_avoids(e, local, ex) ==> avoids_exclusions(
            put(m, e),
            local,
            ex,
        ),
        within_depth(m, d) && within_depth(seq![e], d) ==> within_depth(put(m, e), d),
        all_bare(m) && e.children.len() == 0 ==> all_bare(put(m, e)),
{
    lemma_put_members(m, e);
    let p = put(m, e);
    if avoids_exclusions(m, local, ex) && sel_avoids(e, local, ex) {
        assert forall|k: int| 0 <= k < p.len() implies sel_avoids(#[trigger] p[k], local, ex) by {
            if p[k] != e {
                let j = choose|j: int| 0 <= j < m.len() && m[j] == p[k];
            }
        }
    }
    if within_depth(m, d) && within_depth(seq![e], d) {
        let one = seq![e];
        assert(one[0] == e);
        assert(sel_within_depth(one[0], d));
        assert forall|k: int| 0 <= k < p.len() implies sel_within_depth(#[trigger] p[k], d) by {
            if p[k] != e {
                let j = choose|j: int| 0 <= j < m.len() && m[j] == p[k];
                assert(sel_within_depth(m[j], d));
            }
        }
    }
    if all_bare(m) && e.children.len() == 0 {
        assert forall|k: int| 0 <= k < p.len() implies (#[trigger] p[k]).children.len() == 0 by {
            if p[k] != e {
                let j = choose|j: int| 0 <= j < m.len() && m[j] == p[k];
            }
        }
    }
}

proof fn lemma_read_names_bare(
    n: FsNode,
    dir: Seq<u8>,
    rel: Seq<Seq<u8>>,
    names: Seq<String>,
    i: int,
    acc: Seq<Sel>,
)
    requires
        all_bare(acc),
    ensures
        read_names(n, dir, rel, names, i, acc) matches Ok(r) ==> all_bare(r),
    decreases names.len() - i,
{
    if 0 <= i < names.len() {
        let name = crate::manifest::utf8_of(names[i]);
        match child_stat(n, name) {
            Probe::Known(Some(kind)) => {
                let e = Sel {
                    name,
                    path: crate::paths::join_path(dir, name),
                    kind,
                    children: seq![],
                };
                lemma_put_keeps(acc, e, seq![], seq![], 0);
                lemma_read_names_bare(n, dir, rel, names, i + 1, put(acc, e));
            },
            _ => {},
        }
    }
}

proof fn lemma_read_children_bare(n: FsNode, dir: Seq<u8>, rel: Seq<Seq<u8>>)
    ensures
        read_children(n, dir, rel) matches Ok(r) ==> all_bare(r),
{
    match n.listing {
        Probe::Known(names) => lemma_read_names_bare(n, dir, rel, names@, 0, seq![]),
        _ => {},
    }
}

proof fn lemma_resolve_recursive_shape(
    n: FsNode,
    dir: Seq<u8>,
    rel: Seq<Seq<u8>>,
    local: Seq<Seq<u8>>,
    budget: Option<usize>,
    ex: Seq<Seq<Seq<u8>>>,
    git: Option<Seq<Rule>>,
)
    ensures
        resolve_recursive(n, dir, rel, local, budget, ex, git) matches Ok(r) ==> avoids_exclusions(
            r,
            local,
            ex,
        ),
        match budget {
            Some(b) => b >= 1 ==> (resolve_recursive(n, dir, rel, local, budget, ex, git) matches Ok(r)
                ==> within_depth(r, b as nat)),
            None => true,
        },
    decreases n, 1int, 0int,
{
    lemma_read_children_bare(n, dir, rel);
    match read_children(n, dir, rel) {
        Err(_) => {},
        Ok(cs) => match rules_in(n, dir, rel, local, git) {
            Err(_) => {},
            Ok(g) => lemma_recurse_children_shape(n, rel, local, budget, ex, g, cs, 0, seq![]),
        },
    }
}

proof fn lemma_recurse_children_shape(
    n: FsNode,
    rel: Seq<Seq<u8>>,
    local: Seq<Seq<u8>>,
    budget: Option<usize>,
    ex: Seq<Seq<Seq<u8>>>,
    git: Option<Seq<Rule>>,
    cs: Seq<Sel>,
    i: int,
    acc: Seq<Sel>,
)
    requires
        all_bare(cs),
    ensures
        avoids_exclusions(acc, local, ex) ==> (recurse_children(
            n,
            rel,
            local,
            budget,
            ex,
            git,
            cs,
            i,
            acc,
        ) matches Ok(r) ==> avoids_exclusions(r, local, ex)),
        match budget {
            Some(b) => b >= 1 && within_depth(acc, b as nat) ==> (recurse_children(
                n,
                rel,
                local,
                budget,
                ex,
                git,
                cs,
                i,
                acc,
            ) matches Ok(r) ==> within_depth(r, b as nat)),
            None => true,
        },
    decreases n, 0int, cs.len() - i,
{
    if 0 <= i < cs.len() {
        let c = cs[i];
        let loc = local.push(c.name);
        let d: nat = match budget {
            Some(b) => b as nat,
            None => 0,
        };
        if is_excluded(loc, ex) || skipped_by_git(git, loc, c.kind) {
            lemma_recurse_children_shape(n, rel, local, budget, ex, git, cs, i + 1, acc);
        } else if expands(c.kind, budget) {
            let ci = child_index(n, c.name);
            if 0 <= ci < n.children.len() {
                assert(decreases_to!(n => n.children@[ci].node));
                lemma_resolve_recursive_shape(
                    n.children@[ci].node,
                    c.path,
                    rel.push(c.name),
                    loc,
                    lower(budget),
                    ex,
                    git,
                );
                match resolve_recursive(
                    n.children@[ci].node,
                    c.path,
                    rel.push(c.name),
                    loc,
                    lower(budget),
                    ex,
                    git,
                ) {
                    Err(_) => {},
                    Ok(sub) => {
                        let e = Sel { name: c.name, path: c.path, kind: c.kind, children: sub };
                        assert(sel_avoids(e, local, ex) <== avoids_exclusions(sub, loc, ex));
                        if let Some(b) = budget {
                            if b >= 1 {
                                let one = seq![e];
                                assert(one[0] == e);
                                assert(sel_within_depth(e, b as nat) <== within_depth(
                                    sub,
                                    (b - 1) as nat,
                                ));
                                assert(within_depth(one, b as nat) <== within_depth(
                                    sub,
                                    (b - 1) as nat,
                                ));
                            }
                        }
                        lemma_put_keeps(acc, e, local, ex, d);
                        lemma_recurse_children_shape(
                            n,
                            rel,
                            local,
                            budget,
                            ex,
                            git,
                            cs,
                            i + 1,
                            put(acc, e),
                        );
                    },
                }
            }
        } else {
            assert(c.children.len() == 0);
            assert(c.children =~= Seq::<Sel>::empty());
            assert(sel_avoids(c, local, ex));
            let one = seq![c];
            assert(one[0] == c);
            assert(within_depth(c.children, (d - 1) as nat));
            assert(d >= 1 ==> sel_within_depth(c, d));
            assert(d >= 1 ==> within_depth(one, d));
            lemma_put_keeps(acc, c, local, ex, d);
            lemma_recurse_children_shape(n, rel, local, budget, ex, git, cs, i + 1, put(acc, c));
        }
    }
}

/// What `**` and `***` select lies, at every level, outside the exclusions
/// of their block.
pub proof fn law_recursive_selection_respects_exclusions(
    n: FsNode,
    dir: Seq<u8>,
    rel: Seq<Seq<u8>>,
    depth: Option<usize>,
    ex: Seq<Seq<Seq<u8>>>,
    git: Option<Seq<Rule>>,
)
    ensures
        resolve_recursive(n, dir, rel, seq![], depth, ex, git) matches Ok(r) ==> avoids_exclusions(
            r,
            seq![],
            ex,
        ),
{
    lemma_resolve_recursive_shape(n, dir, rel, seq![], depth, ex, git);
}

/// With a depth limit of `d` levels, `**` and `***` select at most `d`
/// levels below their directory.
pub proof fn law_recursion_stays_within_depth(
    n: FsNode,
    dir: Seq<u8>,
    rel: Seq<Seq<u8>>,
    d: usize,
    ex: Seq<Seq<Seq<u8>>>,
    git: Option<Seq<Rule>>,
)
    requires
        d >= 1,
    ensures
        resolve_recursive(n, dir, rel, seq![], Some(d), ex, git) matches Ok(r) ==> within_depth(
            r,
            d as nat,
        ),
{
    lemma_resolve_recursive_shape(n, dir, rel, seq![], Some(d), ex, git);
}

// ---------------------------------------------------------------------------
// The repository directory.

/// Whether no entry, at any level, is named like git's repository directory.
pub open spec fn no_git_dir(s: Seq<Sel>) -> bool
    decreases s,
{
    forall|i: int| 0 <= i < s.len() ==> sel_no_git_dir(#[trigger] s[i])
}

pub open spec fn sel_no_git_dir(x: Sel) -> bool
    decreases x,
{
    x.name != git_dir_name() && no_git_dir(x.children)
}

proof fn lemma_put_no_git_dir(m: Seq<Sel>, e: Sel)
    requires
        no_git_dir(m),
        sel_no_git_dir(e),
    ensures
        no_git_dir(put(m, e)),
{
    lemma_put_members(m, e);
    let p = put(m, e);
    assert forall|k: int| 0 <= k < p.len() implies sel_no_git_dir(#[trigger] p[k]) by {
        if p[k] != e {
            let j = choose|j: int| 0 <= j < m.len() && m[j] == p[k];
        }
    }
}

proof fn lemma_resolve_recursive_no_git_dir(
    n: FsNode,
    dir: Seq<u8>,
    rel: Seq<Seq<u8>>,
    local: Seq<Seq<u8>>,
    budget: Option<usize>,
    ex: Seq<Seq<Seq<u8>>>,
    rules: Seq<Rule>,
)
    ensures
        resolve_recursive(n, dir, rel, local, budget, ex, Some(rules)) matches Ok(r) ==> no_git_dir(
            r,
        ),
    decreases n, 1int, 0int,
{
    lemma_read_children_bare(n, dir, rel);
    match read_children(n, dir, rel) {
        Err(_) => {},
        Ok(cs) => match rules_in(n, dir, rel, local, Some(rules)) {
            Err(_) => {},
            Ok(g) => {
                assert(no_git_dir(Seq::<Sel>::empty()));
                lemma_recurse_children_no_git_dir(n, rel, local, budget, ex, g->0, cs, 0, seq![]);
            },
        },
    }
}

proof fn lemma_recurse_children_no_git_dir(
    n: FsNode,
    rel: Seq<Seq<u8>>,
    local: Seq<Seq<u8>>,
    budget: Option<usize>,
    ex: Seq<Seq<Seq<u8>>>,
    rules: Seq<Rule>,
    cs: Seq<Sel>,
    i: int,
    acc: Seq<Sel>,
)
    requires
        all_bare(cs),
        no_git_dir(acc),
    ensures
        recurse_children(n, rel, local, budget, ex, Some(rules), cs, i, acc) matches Ok(r)
            ==> no_git_dir(r),
    decreases n, 0int, cs.len() - i,
{
    if 0 <= i < cs.len() {
        let c = cs[i];
        let loc = local.push(c.name);
        if is_excluded(loc, ex) || skipped_by_git(Some(rules), loc, c.kind) {
            lemma_recurse_children_no_git_dir(n, rel, local, budget, ex, rules, cs, i + 1, acc);
        } else {
            assert(c.name != git_dir_name());
            if expands(c.kind, budget) {
                let ci = child_index(n, c.name);
                if 0 <= ci < n.children.len() {
                    assert(decreases_to!(n => n.children@[ci].node));
                    lemma_resolve_recursive_no_git_dir(
                        n.children@[ci].node,
                        c.path,
                        rel.push(c.name),
                        loc,
                        lower(budget),
                        ex,
                        rules,
                    );
                    match resolve_recursive(
                        n.children@[ci].node,
                        c.path,
                        rel.push(c.name),
                        loc,
                        lower(budget),
                        ex,
                        Some(rules),
                    ) {
                        Err(_) => {},
                        Ok(sub) => {
                            let e = Sel { name: c.name, path: c.path, kind: c.kind, children: sub };
                            lemma_put_no_git_dir(acc, e);
                            lemma_recurse_children_no_git_dir(
                                n,
                                rel,
                                local,
                                budget,
                                ex,
                                rules,
                                cs,
                                i + 1,
                                put(acc, e),
                            );
                        },
                    }
                }
            } else {
                assert(c.children.len() == 0);
                assert(no_git_dir(c.children));
                lemma_put_no_git_dir(acc, c);
                lemma_recurse_children_no_git_dir(n, rel, local, budget, ex, rules, cs, i + 1, put(acc, c));
            }
        }
    }
}

/// `**`, which applies git ignore rules, never selects git's repository directory
/// `.git`, at any level.
pub proof fn law_git_directory_is_never_selected(
    n: FsNode,
    dir: Seq<u8>,
    rel: Seq<Seq<u8>>,
    depth: Option<usize>,
    ex: Seq<Seq<Seq<u8>>>,
    global: Seq<Rule>,
)
    ensures
        resolve_recursive(n, dir, rel, seq![], depth, ex, recursion_rules(Directive::Recursive, global))
            matches Ok(r) ==> no_git_dir(r),
{
    lemma_resolve_recursive_no_git_dir(n, dir, rel, seq![], depth, ex, global);
}

// ---------------------------------------------------------------------------
// Only directories are entered.

/// Whether every listing that the snapshot `n` records, at any depth, holds
/// only names of single entries, as reading a real directory gives.
pub open spec fn normal_listings(n: FsNode) -> bool
    decreases n,
{
    &&& n.listing matches Probe::Known(names) ==> forall|k: int|
        0 <= k < names@.len() ==> is_normal_name(#[trigger] crate::manifest::utf8_of(names@[k]))
    &&& forall|i: int| 0 <= i < n.children@.len() ==> normal_listings(#[trigger] n.children@[i].node)
}

/// Whether an entry agrees with the directory that `n` describes: its kind is
/// what the snapshot records for its name, and only a directory has selected
/// children, which agree with the directory's own description.
pub open spec fn sel_agrees(n: FsNode, dir: Seq<u8>, x: Sel) -> bool
    decreases x,
{
    let ci = child_index(n, x.name);
    &&& child_stat(n, x.name) == Probe::Known(Some(x.kind))
    &&& x.path == join_path(dir, x.name)
    &&& normal_listings(n) ==> is_normal_name(x.name)
    &&& x.children.len() > 0 ==> {
        &&& x.kind == ResolvedEntryKind::Directory
        &&& 0 <= ci < n.children.len()
        &&& agrees(n.children@[ci].node, x.path, x.children)
    }
}

/// Whether the entries of a directory agree with its description `n`.
pub open spec fn agrees(n: FsNode, dir: Seq<u8>, s: Seq<Sel>) -> bool
    decreases s,
{
    forall|i: int| 0 <= i < s.len() ==> sel_agrees(n, dir, #[trigger] s[i])
}

/// Whether, at every level, only directories have selected children.
pub open spec fn only_directories_have_children(es: Seq<Res>) -> bool
    decreases es,
{
    forall|i: int| 0 <= i < es.len() ==> res_only_directories(#[trigger] es[i])
}

pub open spec fn res_only_directories(e: Res) -> bool
    decreases e,
{
    &&& e.children.len() > 0 ==> e.kind == ResolvedEntryKind::Directory
    &&& only_directories_have_children(e.children)
}

proof fn lemma_put_agrees(n: FsNode, dir: Seq<u8>, m: Seq<Sel>, e: Sel)
    requires
        agrees(n, dir, m),
        sel_agrees(n, dir, e),
    ensures
        agrees(n, dir, put(m, e)),
{
    lemma_put_members(m, e);
    let p = put(m, e);
    assert forall|k: int| 0 <= k < p.len() implies sel_agrees(n, dir, #[trigger] p[k]) by {
        if p[k] != e {
            let j = choose|j: int| 0 <= j < m.len() && m[j] == p[k];
            assert(sel_agrees(n, dir, m[j]));
        }
    }
}

proof fn lemma_merge_entry_agrees(n: FsNode, dir: Seq<u8>, m: Seq<Sel>, e: Sel)
    requires
        agrees(n, dir, m),
        sel_agrees(n, dir, e),
    ensures
        agrees(n, dir, merge_entry(m, e)),
    decreases e, 2int,
{
    lemma_find_sel_from(m, e.name, 0);
    lemma_insert_pos_from(m, e.name, 0);
    let i = find_sel(m, e.name);
    if 0 <= i < m.len() {
        let old_e = m[i];
        assert(sel_agrees(n, dir, old_e));
        let ci = child_index(n, e.name);
        let merged = merge_children(old_e.children, e.children);
        let x = Sel { name: old_e.name, path: old_e.path, kind: old_e.kind, children: merged };
        if e.children.len() == 0 && old_e.children.len() == 0 {
            assert(rebuild(old_e.children) == Seq::<Sel>::empty());
            assert(merged.len() == 0);
        } else {
            lemma_merge_children_agrees(n.children@[ci].node, old_e.path, old_e.children, e.children);
        }
        assert(sel_agrees(n, dir, x));
        assert forall|k: int| 0 <= k < merge_entry(m, e).len() implies sel_agrees(
            n,
            dir,
            #[trigger] merge_entry(m, e)[k],
        ) by {
            if k != i {
                assert(merge_entry(m, e)[k] == m[k]);
            }
        }
    } else {
        let pos = insert_pos(m, e.name);
        assert forall|k: int| 0 <= k < merge_entry(m, e).len() implies sel_agrees(
            n,
            dir,
            #[trigger] merge_entry(m, e)[k],
        ) by {
            if k < pos {
                assert(merge_entry(m, e)[k] == m[k]);
            } else if k > pos {
                assert(merge_entry(m, e)[k] == m[k - 1]);
            }
        }
    }
}

proof fn lemma_rebuild_agrees(n: FsNode, dir: Seq<u8>, s: Seq<Sel>)
    requires
        agrees(n, dir, s),
    ensures
        agrees(n, dir, rebuild(s)),
    decreases s.len(),
{
    if s.len() > 0 {
        assert forall|k: int| 0 <= k < s.drop_last().len() implies sel_agrees(
            n,
            dir,
            #[trigger] s.drop_last()[k],
        ) by {
            assert(s.drop_last()[k] == s[k]);
        }
        lemma_rebuild_agrees(n, dir, s.drop_last());
        assert(sel_agrees(n, dir, s[s.len() - 1]));
        lemma_put_agrees(n, dir, rebuild(s.drop_last()), s.last());
    }
}

proof fn lemma_merge_children_agrees(n: FsNode, dir: Seq<u8>, existing: Seq<Sel>, add: Seq<Sel>)
    requires
        agrees(n, dir, existing),
        agrees(n, dir, add),
    ensures
        agrees(n, dir, merge_children(existing, add)),
    decreases add, 1int,
{
    lemma_rebuild_agrees(n, dir, existing);
    lemma_merge_adds_agrees(n, dir, rebuild(existing), add);
}

proof fn lemma_merge_adds_agrees(n: FsNode, dir: Seq<u8>, existing: Seq<Sel>, add: Seq<Sel>)
    requires
        agrees(n, dir, existing),
        agrees(n, dir, add),
    ensures
        agrees(n, dir, merge_adds(existing, add)),
    decreases add, 0int,
{
    if add.len() > 0 {
        assert(sel_agrees(n, dir, add[0]));
        assert(decreases_to!(add => add[0]));
        lemma_merge_entry_agrees(n, dir, existing, add[0]);
        let rest = add.subrange(1, add.len() as int);
        assert forall|k: int| 0 <= k < rest.len() implies sel_agrees(n, dir, #[trigger] rest[k]) by {
            assert(rest[k] == add[k + 1]);
        }
        lemma_merge_adds_agrees(n, dir, merge_entry(existing, add[0]), rest);
    }
}

proof fn lemma_read_names_agrees(
    n: FsNode,
    dir: Seq<u8>,
    rel: Seq<Seq<u8>>,
    names: Seq<String>,
    i: int,
    acc: Seq<Sel>,
)
    requires
        agrees(n, dir, acc),
        normal_listings(n) ==> forall|k: int|
            0 <= k < names.len() ==> is_normal_name(#[trigger] crate::manifest::utf8_of(names[k])),
    ensures
        read_names(n, dir, rel, names, i, acc) matches Ok(r) ==> agrees(n, dir, r),
    decreases names.len() - i,
{
    if 0 <= i < names.len() {
        let name = crate::manifest::utf8_of(names[i]);
        match child_stat(n, name) {
            Probe::Known(Some(kind)) => {
                let e = Sel {
                    name,
                    path: crate::paths::join_path(dir, name),
                    kind,
                    children: seq![],
                };
                lemma_put_agrees(n, dir, acc, e);
                lemma_read_names_agrees(n, dir, rel, names, i + 1, put(acc, e));
            },
            _ => {},
        }
    }
}

proof fn lemma_read_children_agrees(n: FsNode, dir: Seq<u8>, rel: Seq<Seq<u8>>)
    ensures
        read_children(n, dir, rel) matches Ok(r) ==> agrees(n, dir, r),
{
    match n.listing {
        Probe::Known(names) => lemma_read_names_agrees(n, dir, rel, names@, 0, seq![]),
        _ => {},
    }
}

proof fn lemma_resolve_recursive_agrees(
    n: FsNode,
    dir: Seq<u8>,
    rel: Seq<Seq<u8>>,
    local: Seq<Seq<u8>>,
    budget: Option<usize>,
    ex: Seq<Seq<Seq<u8>>>,
    git: Option<Seq<Rule>>,
)
    ensures
        resolve_recursive(n, dir, rel, local, budget, ex, git) matches Ok(r) ==> agrees(n, dir, r),
    decreases n, 1int, 0int,
{
    lemma_read_children_agrees(n, dir, rel);
    match read_children(n, dir, rel) {
        Err(_) => {},
        Ok(cs) => match rules_in(n, dir, rel, local, git) {
            Err(_) => {},
            Ok(g) => lemma_recurse_children_agrees(n, dir, rel, local, budget, ex, g, cs, 0, seq![]),
        },
    }
}

proof fn lemma_recurse_children_agrees(
    n: FsNode,
    dir: Seq<u8>,
    rel: Seq<Seq<u8>>,
    local: Seq<Seq<u8>>,
    budget: Option<usize>,
    ex: Seq<Seq<Seq<u8>>>,
    git: Option<Seq<Rule>>,
    cs: Seq<Sel>,
    i: int,
    acc: Seq<Sel>,
)
    requires
        agrees(n, dir, cs),
        agrees(n, dir, acc),
    ensures
        recurse_children(n, rel, local, budget, ex, git, cs, i, acc) matches Ok(r) ==> agrees(n, dir, r),
    decreases n, 0int, cs.len() - i,
{
    if 0 <= i < cs.len() {
        let c = cs[i];
        assert(sel_agrees(n, dir, c));
        let loc = local.push(c.name);
        if is_excluded(loc, ex) || skipped_by_git(git, loc, c.kind) {
            lemma_recurse_children_agrees(n, dir, rel, local, budget, ex, git, cs, i + 1, acc);
        } else if expands(c.kind, budget) {
            let ci = child_index(n, c.name);
            if 0 <= ci < n.children.len() {
                assert(decreases_to!(n => n.children@[ci].node));
                lemma_resolve_recursive_agrees(
                    n.children@[ci].node,
                    c.path,
                    rel.push(c.name),
                    loc,
                    lower(budget),
                    ex,
                    git,
                );
                match resolve_recursive(
                    n.children@[ci].node,
                    c.path,
                    rel.push(c.name),
                    loc,
                    lower(budget),
                    ex,
                    git,
                ) {
                    Err(_) => {},
                    Ok(sub) => {
                        let e = Sel { name: c.name, path: c.path, kind: c.kind, children: sub };
                        assert(sel_agrees(n, dir, e));
                        lemma_put_agrees(n, dir, acc, e);
                        lemma_recurse_children_agrees(
                            n,
                            dir,
                            rel,
                            local,
                            budget,
                            ex,
                            git,
                            cs,
                            i + 1,
                            put(acc, e),
                        );
                    },
                }
            }
        } else {
            lemma_put_agrees(n, dir, acc, c);
            lemma_recurse_children_agrees(n, dir, rel, local, budget, ex, git, cs, i + 1, put(acc, c));
        }
    }
}

/// Whether `fin`, the children resolved for a block at `comps`, may be
/// merged there: they agree with what is known of the path, which is a
/// directory when there are any.
pub open spec fn final_fits(n: FsNode, dir: Seq<u8>, comps: Seq<Seq<u8>>, fin: Option<Seq<Sel>>) -> bool {
    match fin {
        None => true,
        Some(cs) => cs.len() > 0 ==> match node_at(n, comps) {
            Some(t) => t.stat == Probe::Known(Some(ResolvedEntryKind::Directory)) && agrees(
                t,
                join_all_path(dir, comps),
                cs,
            ),
            None => false,
        },
    }
}

proof fn lemma_place_literal_agrees(
    m: Seq<Sel>,
    n: FsNode,
    dir: Seq<u8>,
    rel: Seq<Seq<u8>>,
    comps: Seq<Seq<u8>>,
    fin: Option<Seq<Sel>>,
)
    requires
        agrees(n, dir, m),
        comps.len() > 0 ==> final_fits(n, dir, comps, fin),
        forall|k: int| 0 <= k < comps.len() ==> is_normal_name(#[trigger] comps[k]),
    ensures
        place_literal(m, n, dir, rel, comps, fin) matches Ok(r) ==> agrees(n, dir, r),
    decreases comps.len(),
{
    if comps.len() > 0 {
        let name = comps[0];
        let path = crate::paths::join_path(dir, name);
        let rest = comps.drop_first();
        match child_stat(n, name) {
            Probe::Known(Some(kind)) => {
                lemma_find_sel_from(m, name, 0);
                let i = find_sel(m, name);
                let e = if 0 <= i < m.len() {
                    m[i]
                } else {
                    Sel { name, path, kind, children: seq![] }
                };
                if 0 <= i < m.len() {
                    assert(sel_agrees(n, dir, m[i]));
                }
                assert(sel_agrees(n, dir, e));
                assert(e.kind == kind);
                let ci = child_index(n, name);
                crate::fs::lemma_child_index_from(n.children@, name, 0);
                assert(0 <= ci < n.children.len());
                let child = n.children@[ci].node;
                assert(agrees(child, path, e.children)) by {
                    if e.children.len() == 0 {
                        assert(e.children =~= Seq::<Sel>::empty());
                    }
                }
                if rest.len() == 0 {
                    match fin {
                        Some(cs) => {
                            let merged = merge_children(e.children, cs);
                            let x = Sel { name: e.name, path: e.path, kind: e.kind, children: merged };
                            assert(rest =~= Seq::<Seq<u8>>::empty());
                            assert(node_at(child, rest) == Some(child));
                            if cs.len() > 0 {
                                assert(node_at(n, comps) == node_at(child, rest));
                                assert(join_all_path(dir, comps) == crate::paths::join_all(
                                    path,
                                    rest,
                                ));
                                assert(crate::paths::join_all(path, rest) == path);
                                lemma_merge_children_agrees(child, path, e.children, cs);
                            } else {
                                lemma_merge_children_agrees(child, path, e.children, cs);
                                if e.children.len() == 0 {
                                    assert(rebuild(e.children) == Seq::<Sel>::empty());
                                    assert(merged.len() == 0);
                                }
                            }
                            assert(sel_agrees(n, dir, x));
                            lemma_put_agrees(n, dir, m, x);
                        },
                        None => {
                            lemma_put_agrees(n, dir, m, e);
                        },
                    }
                } else if kind != ResolvedEntryKind::Directory {
                    lemma_put_agrees(n, dir, m, e);
                } else {
                    assert(node_at(n, comps) == node_at(child, rest));
                    assert forall|k: int| 0 <= k < rest.len() implies is_normal_name(
                        #[trigger] rest[k],
                    ) by {
                        assert(rest[k] == comps[k + 1]);
                    }
                    lemma_place_literal_agrees(e.children, child, path, rel.push(name), rest, fin);
                    match place_literal(e.children, child, path, rel.push(name), rest, fin) {
                        Err(_) => {},
                        Ok(sub) => {
                            let x = Sel { name: e.name, path: e.path, kind: e.kind, children: sub };
                            assert(sel_agrees(n, dir, x));
                            lemma_put_agrees(n, dir, m, x);
                        },
                    }
                }
            },
            _ => {},
        }
    }
}

proof fn lemma_insert_literal_agrees(
    m: Seq<Sel>,
    n: FsNode,
    dir: Seq<u8>,
    rel: Seq<Seq<u8>>,
    comps: Seq<Seq<u8>>,
    fin: Option<Seq<Sel>>,
)
    requires
        agrees(n, dir, m),
        comps.len() > 0 ==> final_fits(n, dir, comps, fin),
        forall|k: int| 0 <= k < comps.len() ==> is_normal_name(#[trigger] comps[k]),
    ensures
        insert_literal(m, n, dir, rel, comps, fin) matches Ok(r) ==> agrees(n, dir, r),
{
    lemma_place_literal_agrees(m, n, dir, rel, comps, fin);
}

proof fn lemma_merge_listed_agrees(n: FsNode, dir: Seq<u8>, m: Seq<Sel>, cs: Seq<Sel>, ex: Seq<Seq<Seq<u8>>>, i: int)
    requires
        agrees(n, dir, m),
        agrees(n, dir, cs),
    ensures
        agrees(n, dir, merge_listed(m, cs, ex, i)),
    decreases cs.len() - i,
{
    if 0 <= i < cs.len() {
        assert(sel_agrees(n, dir, cs[i]));
        if is_excluded(seq![cs[i].name], ex) {
            lemma_merge_listed_agrees(n, dir, m, cs, ex, i + 1);
        } else {
            lemma_merge_entry_agrees(n, dir, m, cs[i]);
            lemma_merge_listed_agrees(n, dir, merge_entry(m, cs[i]), cs, ex, i + 1);
        }
    }
}

proof fn lemma_resolve_entries_agrees(
    n: FsNode,
    dir: Seq<u8>,
    rel: Seq<Seq<u8>>,
    ds: Seq<Directive>,
    depth: Option<usize>,
    global: Seq<Rule>,
    inh: Seq<Seq<Seq<u8>>>,
)
    ensures
        resolve_entries(n, dir, rel, ds, depth, global, inh) matches Ok(r) ==> agrees(n, dir, r),
    decreases ds, ds.len() + 1,
{
    match exclusions_from(ds, 0, inh) {
        Err(_) => {},
        Ok(ex) => lemma_resolve_from_agrees(n, dir, rel, ds, ex, depth, global, 0, seq![]),
    }
}

proof fn lemma_resolve_from_agrees(
    n: FsNode,
    dir: Seq<u8>,
    rel: Seq<Seq<u8>>,
    ds: Seq<Directive>,
    ex: Seq<Seq<Seq<u8>>>,
    depth: Option<usize>,
    global: Seq<Rule>,
    i: int,
    m: Seq<Sel>,
)
    requires
        agrees(n, dir, m),
    ensures
        resolve_from(n, dir, rel, ds, ex, depth, global, i, m) matches Ok(r) ==> agrees(n, dir, r),
    decreases ds, ds.len() - i,
{
    if 0 <= i < ds.len() {
        match ds[i] {
            Directive::Include(p) => match relative_components(p) {
                None => {},
                Some(c) => if is_excluded(c, ex) {
                    lemma_resolve_from_agrees(n, dir, rel, ds, ex, depth, global, i + 1, m);
                } else {
                    crate::paths::lemma_relative_components_normal(p);
                    lemma_insert_literal_agrees(m, n, dir, rel, c, None);
                    match insert_literal(m, n, dir, rel, c, None) {
                        Err(_) => {},
                        Ok(m2) => lemma_resolve_from_agrees(n, dir, rel, ds, ex, depth, global, i + 1, m2),
                    }
                },
            },
            Directive::Exclude(_) => lemma_resolve_from_agrees(n, dir, rel, ds, ex, depth, global, i + 1, m),
            Directive::Children => {
                lemma_read_children_agrees(n, dir, rel);
                match read_children(n, dir, rel) {
                    Err(_) => {},
                    Ok(cs) => {
                        lemma_merge_listed_agrees(n, dir, m, cs, ex, 0);
                        lemma_resolve_from_agrees(
                            n,
                            dir,
                            rel,
                            ds,
                            ex,
                            depth,
                            global,
                            i + 1,
                            merge_listed(m, cs, ex, 0),
                        );
                    },
                }
            },
            Directive::Recursive | Directive::RecursiveAll => if depth == Some(0usize) {
                lemma_resolve_from_agrees(n, dir, rel, ds, ex, depth, global, i + 1, m);
            } else {
                lemma_resolve_recursive_agrees(n, dir, rel, seq![], depth, ex, recursion_rules(ds[i], global));
                match resolve_recursive(n, dir, rel, seq![], depth, ex, recursion_rules(ds[i], global)) {
                    Err(_) => {},
                    Ok(rs) => {
                        lemma_merge_children_agrees(n, dir, m, rs);
                        lemma_resolve_from_agrees(
                            n,
                            dir,
                            rel,
                            ds,
                            ex,
                            depth,
                            global,
                            i + 1,
                            merge_children(m, rs),
                        );
                    },
                }
            },
            Directive::Descend(p, sub) => match relative_components(p) {
                None => {},
                Some(c) => if is_excluded(c, ex) {
                    lemma_resolve_from_agrees(n, dir, rel, ds, ex, depth, global, i + 1, m);
                } else {
                    match node_at(n, c) {
                        None => {},
                        Some(t) => match t.stat {
                            Probe::Known(None) => lemma_resolve_from_agrees(
                                n,
                                dir,
                                rel,
                                ds,
                                ex,
                                depth,
                                global,
                                i + 1,
                                m,
                            ),
                            Probe::Known(Some(kind)) => if kind != ResolvedEntryKind::Directory {
                                lemma_resolve_from_agrees(n, dir, rel, ds, ex, depth, global, i + 1, m);
                            } else {
                                assert(decreases_to!(ds => sub));
                                lemma_resolve_entries_agrees(
                                    t,
                                    join_all_path(dir, c),
                                    rel + c,
                                    sub,
                                    depth,
                                    global,
                                    exclusions_below(ex, c, 0),
                                );
                                match resolve_entries(t, join_all_path(dir, c), rel + c, sub, depth, global, exclusions_below(ex, c, 0)) {
                                    Err(_) => {},
                                    Ok(children) => {
                                        assert(final_fits(n, dir, c, Some(children)));
                                        crate::paths::lemma_relative_components_normal(p);
                                        lemma_insert_literal_agrees(
                                            m,
                                            n,
                                            dir,
                                            rel,
                                            c,
                                            Some(children),
                                        );
                                        match insert_literal(m, n, dir, rel, c, Some(children)) {
                                            Err(_) => {},
                                            Ok(m2) => lemma_resolve_from_agrees(
                                                n,
                                                dir,
                                                rel,
                                                ds,
                                                ex,
                                                depth,
                                                global,
                                                i + 1,
                                                m2,
                                            ),
                                        }
                                    },
                                }
                            },
                            _ => {},
                        },
                    }
                },
            },
        }
    }
}

proof fn lemma_agrees_only_directories(n: FsNode, dir: Seq<u8>, s: Seq<Sel>)
    requires
        agrees(n, dir, s),
    ensures
        only_directories_have_children(Seq::new(s.len(), |i: int| strip(s[i]))),
    decreases s,
{
    let r = Seq::new(s.len(), |i: int| strip(s[i]));
    assert forall|i: int| 0 <= i < r.len() implies res_only_directories(#[trigger] r[i]) by {
        let x = s[i];
        assert(sel_agrees(n, dir, x));
        let e = strip(x);
        assert(e.children.len() == x.children.len());
        let ci = child_index(n, x.name);
        assert(decreases_to!(s => s[i]));
        if x.children.len() > 0 {
            assert(decreases_to!(s => s[i].children));
            lemma_agrees_only_directories(n.children@[ci].node, x.path, x.children);
            assert(e.children =~= Seq::new(x.children.len(), |k: int| strip(x.children[k])));
        } else {
            assert(e.children =~= Seq::<Res>::empty());
        }
    }
}

/// Only directories are entered: in a resolved tree, at every level, an
/// entry with selected children is a directory. Files, and symbolic links
/// whatever they point to, are selected without anything below them.
pub proof fn law_only_directories_are_entered(
    ds: Seq<Directive>,
    root: Seq<u8>,
    depth: Option<usize>,
    global: Seq<Rule>,
    fs: FsNode,
)
    ensures
        resolution_spec(ds, root, depth, global, fs) matches Ok(es) ==> only_directories_have_children(es),
{
    lemma_resolve_entries_agrees(fs, root, seq![], ds, depth, global, seq![]);
    match resolve_entries(fs, root, seq![], ds, depth, global, seq![]) {
        Ok(sels) => lemma_agrees_only_directories(fs, root, sels),
        Err(_) => {},
    }
}

// ---------------------------------------------------------------------------
// Missing literal paths.

proof fn lemma_exclusions_shift(
    ds: Seq<Directive>,
    k: int,
    d: Directive,
    i: int,
    acc: Seq<Seq<Seq<u8>>>,
)
    requires
        0 <= k <= i <= ds.len(),
        d is Include,
    ensures
        exclusions_from(ds.insert(k, d), i + 1, acc) == exclusions_from(ds, i, acc),
    decreases ds.len() - i,
{
    let e = ds.insert(k, d);
    if i < ds.len() {
        assert(e[i + 1] == ds[i]);
        match ds[i] {
            Directive::Exclude(p) => match relative_components(p) {
                Some(c) => lemma_exclusions_shift(ds, k, d, i + 1, acc.push(c)),
                None => {},
            },
            _ => lemma_exclusions_shift(ds, k, d, i + 1, acc),
        }
    }
}

proof fn lemma_exclusions_prefix(
    ds: Seq<Directive>,
    k: int,
    d: Directive,
    i: int,
    acc: Seq<Seq<Seq<u8>>>,
)
    requires
        0 <= i <= k <= ds.len(),
        d is Include,
    ensures
        exclusions_from(ds.insert(k, d), i, acc) == exclusions_from(ds, i, acc),
    decreases k - i,
{
    let e = ds.insert(k, d);
    if i == k {
        assert(e[k] == d);
        lemma_exclusions_shift(ds, k, d, k, acc);
    } else {
        assert(e[i] == ds[i]);
        match ds[i] {
            Directive::Exclude(p) => match relative_components(p) {
                Some(c) => lemma_exclusions_prefix(ds, k, d, i + 1, acc.push(c)),
                None => {},
            },
            _ => lemma_exclusions_prefix(ds, k, d, i + 1, acc),
        }
    }
}

proof fn lemma_resolve_from_shift(
    n: FsNode,
    dir: Seq<u8>,
    rel: Seq<Seq<u8>>,
    ds: Seq<Directive>,
    k: int,
    d: Directive,
    ex: Seq<Seq<Seq<u8>>>,
    depth: Option<usize>,
    global: Seq<Rule>,
    i: int,
    m: Seq<Sel>,
)
    requires
        0 <= k <= i <= ds.len(),
    ensures
        resolve_from(n, dir, rel, ds.insert(k, d), ex, depth, global, i + 1, m) == resolve_from(
            n,
            dir,
            rel,
            ds,
            ex,
            depth,
            global,
            i,
            m,
        ),
    decreases ds.len() - i,
{
    let e = ds.insert(k, d);
    if i < ds.len() {
        assert(e[i + 1] == ds[i]);
            match ds[i] {
                Directive::Include(p) => match relative_components(p) {
                    None => {},
                    Some(c) => if is_excluded(c, ex) {
                        lemma_resolve_from_shift(n, dir, rel, ds, k, d, ex, depth, global, i + 1, m);
                    } else {
                        match insert_literal(m, n, dir, rel, c, None) {
                            Err(_) => {},
                            Ok(m2) => lemma_resolve_from_shift(n, dir, rel, ds, k, d, ex, depth, global, i + 1, m2),
                        }
                    },
                },
                Directive::Exclude(_) => lemma_resolve_from_shift(n, dir, rel, ds, k, d, ex, depth, global, i + 1, m),
                Directive::Children => match read_children(n, dir, rel) {
                    Err(_) => {},
                    Ok(cs) => lemma_resolve_from_shift(n, dir, rel, ds, k, d, ex, depth, global, i + 1, merge_listed(m, cs, ex, 0)),
                },
                Directive::Recursive | Directive::RecursiveAll => if depth == Some(0usize) {
                    lemma_resolve_from_shift(n, dir, rel, ds, k, d, ex, depth, global, i + 1, m);
                } else {
                    match resolve_recursive(n, dir, rel, seq![], depth, ex, recursion_rules(ds[i], global)) {
                        Err(_) => {},
                        Ok(rs) => lemma_resolve_from_shift(n, dir, rel, ds, k, d, ex, depth, global, i + 1, merge_children(m, rs)),
                    }
                },
                Directive::Descend(p, sub) => match relative_components(p) {
                    None => {},
                    Some(c) => if is_excluded(c, ex) {
                        lemma_resolve_from_shift(n, dir, rel, ds, k, d, ex, depth, global, i + 1, m);
                    } else {
                        match node_at(n, c) {
                            None => {},
                            Some(t) => match t.stat {
                                Probe::Known(None) => lemma_resolve_from_shift(n, dir, rel, ds, k, d, ex, depth, global, i + 1, m),
                                Probe::Known(Some(kind)) => if kind != ResolvedEntryKind::Directory {
                                    lemma_resolve_from_shift(n, dir, rel, ds, k, d, ex, depth, global, i + 1, m);
                                } else {
                                    match resolve_entries(t, join_all_path(dir, c), rel + c, sub, depth, global, exclusions_below(ex, c, 0)) {
                                        Err(_) => {},
                                        Ok(children) => match insert_literal(
                                            m,
                                            n,
                                            dir,
                                            rel,
                                            c,
                                            Some(children),
                                        ) {
                                            Err(_) => {},
                                            Ok(m2) => lemma_resolve_from_shift(n, dir, rel, ds, k, d, ex, depth, global, i + 1, m2),
                                        },
                                    }
                                },
                                _ => {},
                            },
                        }
                    },
                },
            }
    }
}

/// Whether the snapshot `n` records the path `comps` as missing: some
/// component is absent, or one before the last is not a directory.
pub open spec fn literal_missing(n: FsNode, comps: Seq<Seq<u8>>) -> bool
    decreases comps.len(),
{
    comps.len() > 0 && match child_stat(n, comps[0]) {
        Probe::Known(None) => true,
        Probe::Known(Some(kind)) => comps.len() > 1 && (kind != ResolvedEntryKind::Directory
            || literal_missing(n.children@[child_index(n, comps[0])].node, comps.drop_first())),
        _ => false,
    }
}

proof fn lemma_missing_probe(n: FsNode, dir: Seq<u8>, rel: Seq<Seq<u8>>, comps: Seq<Seq<u8>>)
    requires
        literal_missing(n, comps),
    ensures
        probe_literal(n, dir, rel, comps) == Ok::<bool, SpecStop>(false),
    decreases comps.len(),
{
    let name = comps[0];
    match child_stat(n, name) {
        Probe::Known(Some(kind)) => if kind == ResolvedEntryKind::Directory {
            lemma_missing_probe(
                n.children@[child_index(n, name)].node,
                crate::paths::join_path(dir, name),
                rel.push(name),
                comps.drop_first(),
            );
        },
        _ => {},
    }
}

/// Whether a directive includes a valid path that the snapshot `fs` records
/// as missing.
pub open spec fn includes_missing_path(fs: FsNode, d: Directive) -> bool {
    match d {
        Directive::Include(p) => match relative_components(p) {
            Some(c) => literal_missing(fs, c),
            None => false,
        },
        _ => false,
    }
}

proof fn lemma_resolve_from_prefix(
    n: FsNode,
    dir: Seq<u8>,
    rel: Seq<Seq<u8>>,
    ds: Seq<Directive>,
    k: int,
    d: Directive,
    ex: Seq<Seq<Seq<u8>>>,
    depth: Option<usize>,
    global: Seq<Rule>,
    i: int,
    m: Seq<Sel>,
)
    requires
        0 <= i <= k <= ds.len(),
        includes_missing_path(n, d) || d is Exclude,
    ensures
        resolve_from(n, dir, rel, ds.insert(k, d), ex, depth, global, i, m) == resolve_from(
            n,
            dir,
            rel,
            ds,
            ex,
            depth,
            global,
            i,
            m,
        ),
    decreases k - i,
{
    let e = ds.insert(k, d);
    if i == k {
        assert(e[k] == d);
        lemma_resolve_from_shift(n, dir, rel, ds, k, d, ex, depth, global, k, m);
        match d {
            Directive::Include(p) => {
                let c = relative_components(p)->0;
                lemma_missing_probe(n, dir, rel, c);
                assert(insert_literal(m, n, dir, rel, c, None) == Ok::<Seq<Sel>, SpecStop>(m));
            },
            _ => {},
        }
    } else {
        assert(e[i] == ds[i]);
            match ds[i] {
                Directive::Include(p) => match relative_components(p) {
                    None => {},
                    Some(c) => if is_excluded(c, ex) {
                        lemma_resolve_from_prefix(n, dir, rel, ds, k, d, ex, depth, global, i + 1, m);
                    } else {
                        match insert_literal(m, n, dir, rel, c, None) {
                            Err(_) => {},
                            Ok(m2) => lemma_resolve_from_prefix(n, dir, rel, ds, k, d, ex, depth, global, i + 1, m2),
                        }
                    },
                },
                Directive::Exclude(_) => lemma_resolve_from_prefix(n, dir, rel, ds, k, d, ex, depth, global, i + 1, m),
                Directive::Children => match read_children(n, dir, rel) {
                    Err(_) => {},
                    Ok(cs) => lemma_resolve_from_prefix(n, dir, rel, ds, k, d, ex, depth, global, i + 1, merge_listed(m, cs, ex, 0)),
                },
                Directive::Recursive | Directive::RecursiveAll => if depth == Some(0usize) {
                    lemma_resolve_from_prefix(n, dir, rel, ds, k, d, ex, depth, global, i + 1, m);
                } else {
                    match resolve_recursive(n, dir, rel, seq![], depth, ex, recursion_rules(ds[i], global)) {
                        Err(_) => {},
                        Ok(rs) => lemma_resolve_from_prefix(n, dir, rel, ds, k, d, ex, depth, global, i + 1, merge_children(m, rs)),
                    }
                },
                Directive::Descend(p, sub) => match relative_components(p) {
                    None => {},
                    Some(c) => if is_excluded(c, ex) {
                        lemma_resolve_from_prefix(n, dir, rel, ds, k, d, ex, depth, global, i + 1, m);
                    } else {
                        match node_at(n, c) {
                            None => {},
                            Some(t) => match t.stat {
                                Probe::Known(None) => lemma_resolve_from_prefix(n, dir, rel, ds, k, d, ex, depth, global, i + 1, m),
                                Probe::Known(Some(kind)) => if kind != ResolvedEntryKind::Directory {
                                    lemma_resolve_from_prefix(n, dir, rel, ds, k, d, ex, depth, global, i + 1, m);
                                } else {
                                    match resolve_entries(t, join_all_path(dir, c), rel + c, sub, depth, global, exclusions_below(ex, c, 0)) {
                                        Err(_) => {},
                                        Ok(children) => match insert_literal(
                                            m,
                                            n,
                                            dir,
                                            rel,
                                            c,
                                            Some(children),
                                        ) {
                                            Err(_) => {},
                                            Ok(m2) => lemma_resolve_from_prefix(n, dir, rel, ds, k, d, ex, depth, global, i + 1, m2),
                                        },
                                    }
                                },
                                _ => {},
                            },
                        }
                    },
                },
            }
    }
}

/// Missing literal paths are ignored: adding, anywhere in the top level of a
/// manifest, the inclusion of a valid path that does not exist changes
/// nothing about the resolution.
pub proof fn law_missing_literals_are_ignored(
    ds: Seq<Directive>,
    k: int,
    d: Directive,
    root: Seq<u8>,
    depth: Option<usize>,
    global: Seq<Rule>,
    fs: FsNode,
)
    requires
        0 <= k <= ds.len(),
        includes_missing_path(fs, d),
    ensures
        resolution_spec(ds.insert(k, d), root, depth, global, fs) == resolution_spec(ds, root, depth, global, fs),
{
    lemma_exclusions_prefix(ds, k, d, 0, seq![]);
    match exclusions_from(ds, 0, seq![]) {
        Err(_) => {},
        Ok(ex) => lemma_resolve_from_prefix(fs, root, seq![], ds, k, d, ex, depth, global, 0, seq![]),
    }
}


// ---------------------------------------------------------------------------
// Where an exclusion stands.

/// Whether two lists of exclusions exclude the same paths.
pub open spec fn same_exclusions(a: Seq<Seq<Seq<u8>>>, b: Seq<Seq<Seq<u8>>>) -> bool {
    forall|x: Seq<Seq<u8>>|
        #![trigger is_excluded(x, a)]
        #![trigger is_excluded(x, b)]
        is_excluded(x, a) == is_excluded(x, b)
}

proof fn lemma_excluded_push(a: Seq<Seq<Seq<u8>>>, c: Seq<Seq<u8>>, x: Seq<Seq<u8>>)
    ensures
        is_excluded(x, a.push(c)) == (is_excluded(x, a) || crate::paths::is_prefix(c, x)),
{
    let b = a.push(c);
    if is_excluded(x, a) {
        let j = choose|j: int| 0 <= j < a.len() && crate::paths::is_prefix(#[trigger] a[j], x);
        assert(b[j] == a[j]);
    }
    if crate::paths::is_prefix(c, x) {
        assert(b[a.len() as int] == c);
    }
    if is_excluded(x, b) {
        let j = choose|j: int| 0 <= j < b.len() && crate::paths::is_prefix(#[trigger] b[j], x);
        if j < a.len() {
            assert(b[j] == a[j]);
        }
    }
}

proof fn lemma_same_exclusions_push(a: Seq<Seq<Seq<u8>>>, b: Seq<Seq<Seq<u8>>>, c: Seq<Seq<u8>>)
    requires
        same_exclusions(a, b),
    ensures
        same_exclusions(a.push(c), b.push(c)),
{
    assert forall|x: Seq<Seq<u8>>| is_excluded(x, a.push(c)) == is_excluded(x, b.push(c)) by {
        lemma_excluded_push(a, c, x);
        lemma_excluded_push(b, c, x);
    }
}

/// What the exclusions that reach below `c` exclude there.
proof fn lemma_exclusions_below_excluded(
    ex: Seq<Seq<Seq<u8>>>,
    c: Seq<Seq<u8>>,
    i: int,
    x: Seq<Seq<u8>>,
)
    requires
        0 <= i <= ex.len(),
    ensures
        is_excluded(x, exclusions_below(ex, c, i)) <==> exists|j: int|
            i <= j < ex.len() && c.len() < (#[trigger] ex[j]).len() && crate::paths::is_prefix(
                c,
                ex[j],
            ) && crate::paths::is_prefix(ex[j].skip(c.len() as int), x),
    decreases ex.len() - i,
{
    if i < ex.len() {
        lemma_exclusions_below_excluded(ex, c, i + 1, x);
        let rest = exclusions_below(ex, c, i + 1);
        let here = if c.len() < ex[i].len() && crate::paths::is_prefix(c, ex[i]) {
            seq![ex[i].skip(c.len() as int)]
        } else {
            seq![]
        };
        let all = here + rest;
        assert(exclusions_below(ex, c, i) == all);
        if is_excluded(x, all) {
            let j = choose|j: int| 0 <= j < all.len() && crate::paths::is_prefix(#[trigger] all[j], x);
            if j >= here.len() {
                assert(all[j] == rest[j - here.len()]);
            }
        }
        if exists|j: int|
            i <= j < ex.len() && c.len() < (#[trigger] ex[j]).len() && crate::paths::is_prefix(
                c,
                ex[j],
            ) && crate::paths::is_prefix(ex[j].skip(c.len() as int), x) {
            let j = choose|j: int|
                i <= j < ex.len() && c.len() < (#[trigger] ex[j]).len() && crate::paths::is_prefix(
                    c,
                    ex[j],
                ) && crate::paths::is_prefix(ex[j].skip(c.len() as int), x);
            if j == i {
                assert(all[0] == ex[i].skip(c.len() as int));
            } else {
                let k = choose|k: int|
                    0 <= k < rest.len() && crate::paths::is_prefix(#[trigger] rest[k], x);
                assert(all[here.len() + k] == rest[k]);
            }
        }
    } else {
        assert(exclusions_below(ex, c, i) =~= Seq::<Seq<Seq<u8>>>::empty());
    }
}

/// Below a path that they do not exclude, the exclusions that reach there
/// exclude what the whole list excludes.
proof fn lemma_exclusions_below_same(
    ex: Seq<Seq<Seq<u8>>>,
    ex2: Seq<Seq<Seq<u8>>>,
    c: Seq<Seq<u8>>,
)
    requires
        same_exclusions(ex, ex2),
        !is_excluded(c, ex),
    ensures
        same_exclusions(exclusions_below(ex, c, 0), exclusions_below(ex2, c, 0)),
{
    assert forall|x: Seq<Seq<u8>>|
        is_excluded(x, exclusions_below(ex, c, 0)) == is_excluded(x, exclusions_below(ex2, c, 0)) by {
        lemma_below_is_joined(ex, c, x);
        lemma_below_is_joined(ex2, c, x);
        assert(is_excluded(c + x, ex) == is_excluded(c + x, ex2));
        assert(is_excluded(c, ex) == is_excluded(c, ex2));
    }
}

proof fn lemma_below_is_joined(ex: Seq<Seq<Seq<u8>>>, c: Seq<Seq<u8>>, x: Seq<Seq<u8>>)
    requires
        !is_excluded(c, ex),
    ensures
        is_excluded(x, exclusions_below(ex, c, 0)) == is_excluded(c + x, ex),
{
    lemma_exclusions_below_excluded(ex, c, 0, x);
    let cx = c + x;
    if is_excluded(x, exclusions_below(ex, c, 0)) {
        let j = choose|j: int|
            0 <= j < ex.len() && c.len() < (#[trigger] ex[j]).len() && crate::paths::is_prefix(
                c,
                ex[j],
            ) && crate::paths::is_prefix(ex[j].skip(c.len() as int), x);
        let e = ex[j];
        assert(cx.take(e.len() as int) =~= e) by {
            assert forall|k: int| 0 <= k < e.len() implies cx.take(e.len() as int)[k] == e[k] by {
                if k < c.len() {
                    assert(e.take(c.len() as int)[k] == e[k]);
                } else {
                    assert(e.skip(c.len() as int)[k - c.len()] == e[k]);
                    assert(x.take(e.skip(c.len() as int).len() as int)[k - c.len()] == x[k - c.len()]);
                }
            }
        }
        assert(crate::paths::is_prefix(ex[j], cx));
    }
    if is_excluded(cx, ex) {
        let j = choose|j: int| 0 <= j < ex.len() && crate::paths::is_prefix(#[trigger] ex[j], cx);
        let e = ex[j];
        if e.len() <= c.len() {
            assert(c.take(e.len() as int) =~= e) by {
                assert forall|k: int| 0 <= k < e.len() implies c.take(e.len() as int)[k] == e[k] by {
                    assert(cx.take(e.len() as int)[k] == e[k]);
                }
            }
            assert(crate::paths::is_prefix(ex[j], c));
            assert(false);
        } else {
            assert(e.take(c.len() as int) =~= c) by {
                assert forall|k: int| 0 <= k < c.len() implies e.take(c.len() as int)[k] == c[k] by {
                    assert(cx.take(e.len() as int)[k] == e[k]);
                }
            }
            let tail = e.skip(c.len() as int);
            assert(x.take(tail.len() as int) =~= tail) by {
                assert forall|k: int| 0 <= k < tail.len() implies x.take(tail.len() as int)[k]
                    == tail[k] by {
                    assert(cx.take(e.len() as int)[c.len() + k] == e[c.len() + k]);
                }
            }
            assert(crate::paths::is_prefix(c, ex[j]));
            assert(crate::paths::is_prefix(ex[j].skip(c.len() as int), x));
        }
    }
}

proof fn lemma_merge_listed_same_ex(
    m: Seq<Sel>,
    cs: Seq<Sel>,
    ex: Seq<Seq<Seq<u8>>>,
    ex2: Seq<Seq<Seq<u8>>>,
    i: int,
)
    requires
        same_exclusions(ex, ex2),
    ensures
        merge_listed(m, cs, ex, i) == merge_listed(m, cs, ex2, i),
    decreases cs.len() - i,
{
    if 0 <= i < cs.len() {
        assert(is_excluded(seq![cs[i].name], ex) == is_excluded(seq![cs[i].name], ex2));
        lemma_merge_listed_same_ex(m, cs, ex, ex2, i + 1);
        lemma_merge_listed_same_ex(merge_entry(m, cs[i]), cs, ex, ex2, i + 1);
    }
}

proof fn lemma_resolve_recursive_same_ex(
    n: FsNode,
    dir: Seq<u8>,
    rel: Seq<Seq<u8>>,
    local: Seq<Seq<u8>>,
    budget: Option<usize>,
    ex: Seq<Seq<Seq<u8>>>,
    ex2: Seq<Seq<Seq<u8>>>,
    git: Option<Seq<Rule>>,
)
    requires
        same_exclusions(ex, ex2),
    ensures
        resolve_recursive(n, dir, rel, local, budget, ex, git) == resolve_recursive(
            n,
            dir,
            rel,
            local,
            budget,
            ex2,
            git,
        ),
    decreases n, 1int, 0int,
{
    match read_children(n, dir, rel) {
        Err(_) => {},
        Ok(cs) => match rules_in(n, dir, rel, local, git) {
            Err(_) => {},
            Ok(g) => lemma_recurse_children_same_ex(n, rel, local, budget, ex, ex2, g, cs, 0, seq![]),
        },
    }
}

proof fn lemma_recurse_children_same_ex(
    n: FsNode,
    rel: Seq<Seq<u8>>,
    local: Seq<Seq<u8>>,
    budget: Option<usize>,
    ex: Seq<Seq<Seq<u8>>>,
    ex2: Seq<Seq<Seq<u8>>>,
    git: Option<Seq<Rule>>,
    cs: Seq<Sel>,
    i: int,
    acc: Seq<Sel>,
)
    requires
        same_exclusions(ex, ex2),
    ensures
        recurse_children(n, rel, local, budget, ex, git, cs, i, acc) == recurse_children(
            n,
            rel,
            local,
            budget,
            ex2,
            git,
            cs,
            i,
            acc,
        ),
    decreases n, 0int, cs.len() - i,
{
    if 0 <= i < cs.len() {
        let c = cs[i];
        let loc = local.push(c.name);
        assert(is_excluded(loc, ex) == is_excluded(loc, ex2));
        if is_excluded(loc, ex) || skipped_by_git(git, loc, c.kind) {
            lemma_recurse_children_same_ex(n, rel, local, budget, ex, ex2, git, cs, i + 1, acc);
        } else if expands(c.kind, budget) {
            let ci = child_index(n, c.name);
            if 0 <= ci < n.children.len() {
                assert(decreases_to!(n => n.children@[ci].node));
                lemma_resolve_recursive_same_ex(
                    n.children@[ci].node,
                    c.path,
                    rel.push(c.name),
                    loc,
                    lower(budget),
                    ex,
                    ex2,
                    git,
                );
                match resolve_recursive(
                    n.children@[ci].node,
                    c.path,
                    rel.push(c.name),
                    loc,
                    lower(budget),
                    ex,
                    git,
                ) {
                    Err(_) => {},
                    Ok(sub) => lemma_recurse_children_same_ex(
                        n,
                        rel,
                        local,
                        budget,
                        ex,
                        ex2,
                        git,
                        cs,
                        i + 1,
                        put(acc, Sel { name: c.name, path: c.path, kind: c.kind, children: sub }),
                    ),
                }
            }
        } else {
            lemma_recurse_children_same_ex(n, rel, local, budget, ex, ex2, git, cs, i + 1, put(acc, c));
        }
    }
}

/// Collecting a block's exclusions after lists that exclude the same paths
/// gives lists that exclude the same paths, or the same invalid path.
proof fn lemma_exclusions_from_same(
    ds: Seq<Directive>,
    i: int,
    a: Seq<Seq<Seq<u8>>>,
    b: Seq<Seq<Seq<u8>>>,
)
    requires
        same_exclusions(a, b),
    ensures
        match (exclusions_from(ds, i, a), exclusions_from(ds, i, b)) {
            (Ok(x), Ok(y)) => same_exclusions(x, y),
            (Err(p), Err(q)) => p == q,
            _ => false,
        },
    decreases ds.len() - i,
{
    if 0 <= i < ds.len() {
        match ds[i] {
            Directive::Exclude(p) => match relative_components(p) {
                Some(c) => {
                    lemma_same_exclusions_push(a, b, c);
                    lemma_exclusions_from_same(ds, i + 1, a.push(c), b.push(c));
                },
                None => {},
            },
            _ => lemma_exclusions_from_same(ds, i + 1, a, b),
        }
    }
}

proof fn lemma_resolve_entries_same_ex(
    n: FsNode,
    dir: Seq<u8>,
    rel: Seq<Seq<u8>>,
    ds: Seq<Directive>,
    depth: Option<usize>,
    global: Seq<Rule>,
    inh: Seq<Seq<Seq<u8>>>,
    inh2: Seq<Seq<Seq<u8>>>,
)
    requires
        same_exclusions(inh, inh2),
    ensures
        resolve_entries(n, dir, rel, ds, depth, global, inh) == resolve_entries(
            n,
            dir,
            rel,
            ds,
            depth,
            global,
            inh2,
        ),
    decreases ds, ds.len() + 1,
{
    lemma_exclusions_from_same(ds, 0, inh, inh2);
    match (exclusions_from(ds, 0, inh), exclusions_from(ds, 0, inh2)) {
        (Ok(x), Ok(y)) => lemma_resolve_from_same_ex(n, dir, rel, ds, x, y, depth, global, 0, seq![]),
        _ => {},
    }
}

proof fn lemma_resolve_from_same_ex(
    n: FsNode,
    dir: Seq<u8>,
    rel: Seq<Seq<u8>>,
    ds: Seq<Directive>,
    ex: Seq<Seq<Seq<u8>>>,
    ex2: Seq<Seq<Seq<u8>>>,
    depth: Option<usize>,
    global: Seq<Rule>,
    i: int,
    m: Seq<Sel>,
)
    requires
        same_exclusions(ex, ex2),
    ensures
        resolve_from(n, dir, rel, ds, ex, depth, global, i, m) == resolve_from(
            n,
            dir,
            rel,
            ds,
            ex2,
            depth,
            global,
            i,
            m,
        ),
    decreases ds, ds.len() - i,
{
    if 0 <= i < ds.len() {
        match ds[i] {
            Directive::Include(p) => match relative_components(p) {
                None => {},
                Some(c) => {
                    assert(is_excluded(c, ex) == is_excluded(c, ex2));
                    if is_excluded(c, ex) {
                        lemma_resolve_from_same_ex(n, dir, rel, ds, ex, ex2, depth, global, i + 1, m);
                    } else {
                        match insert_literal(m, n, dir, rel, c, None) {
                            Err(_) => {},
                            Ok(m2) => lemma_resolve_from_same_ex(
                                n,
                                dir,
                                rel,
                                ds,
                                ex,
                                ex2,
                                depth,
                                global,
                                i + 1,
                                m2,
                            ),
                        }
                    }
                },
            },
            Directive::Exclude(_) => lemma_resolve_from_same_ex(
                n,
                dir,
                rel,
                ds,
                ex,
                ex2,
                depth,
                global,
                i + 1,
                m,
            ),
            Directive::Children => match read_children(n, dir, rel) {
                Err(_) => {},
                Ok(cs) => {
                    lemma_merge_listed_same_ex(m, cs, ex, ex2, 0);
                    lemma_resolve_from_same_ex(
                        n,
                        dir,
                        rel,
                        ds,
                        ex,
                        ex2,
                        depth,
                        global,
                        i + 1,
                        merge_listed(m, cs, ex, 0),
                    );
                },
            },
            Directive::Recursive | Directive::RecursiveAll => if depth == Some(0usize) {
                lemma_resolve_from_same_ex(n, dir, rel, ds, ex, ex2, depth, global, i + 1, m);
            } else {
                let git = recursion_rules(ds[i], global);
                lemma_resolve_recursive_same_ex(n, dir, rel, seq![], depth, ex, ex2, git);
                match resolve_recursive(n, dir, rel, seq![], depth, ex, git) {
                    Err(_) => {},
                    Ok(rs) => lemma_resolve_from_same_ex(
                        n,
                        dir,
                        rel,
                        ds,
                        ex,
                        ex2,
                        depth,
                        global,
                        i + 1,
                        merge_children(m, rs),
                    ),
                }
            },
            Directive::Descend(p, sub) => match relative_components(p) {
                None => {},
                Some(c) => {
                    assert(is_excluded(c, ex) == is_excluded(c, ex2));
                    if is_excluded(c, ex) {
                        lemma_resolve_from_same_ex(n, dir, rel, ds, ex, ex2, depth, global, i + 1, m);
                    } else {
                        match node_at(n, c) {
                            None => {},
                            Some(t) => match t.stat {
                                Probe::Known(Some(kind)) => if kind == ResolvedEntryKind::Directory {
                                    lemma_exclusions_below_same(ex, ex2, c);
                                    assert(decreases_to!(ds => sub)) by {
                                        assert(decreases_to!(ds => ds[i]));
                                    }
                                    lemma_resolve_entries_same_ex(
                                        t,
                                        join_all_path(dir, c),
                                        rel + c,
                                        sub,
                                        depth,
                                        global,
                                        exclusions_below(ex, c, 0),
                                        exclusions_below(ex2, c, 0),
                                    );
                                    match resolve_entries(
                                        t,
                                        join_all_path(dir, c),
                                        rel + c,
                                        sub,
                                        depth,
                                        global,
                                        exclusions_below(ex, c, 0),
                                    ) {
                                        Err(_) => {},
                                        Ok(children) => match insert_literal(
                                            m,
                                            n,
                                            dir,
                                            rel,
                                            c,
                                            Some(children),
                                        ) {
                                            Err(_) => {},
                                            Ok(m2) => lemma_resolve_from_same_ex(
                                                n,
                                                dir,
                                                rel,
                                                ds,
                                                ex,
                                                ex2,
                                                depth,
                                                global,
                                                i + 1,
                                                m2,
                                            ),
                                        },
                                    }
                                } else {
                                    lemma_resolve_from_same_ex(
                                        n,
                                        dir,
                                        rel,
                                        ds,
                                        ex,
                                        ex2,
                                        depth,
                                        global,
                                        i + 1,
                                        m,
                                    );
                                },
                                Probe::Known(None) => lemma_resolve_from_same_ex(
                                    n,
                                    dir,
                                    rel,
                                    ds,
                                    ex,
                                    ex2,
                                    depth,
                                    global,
                                    i + 1,
                                    m,
                                ),
                                _ => {},
                            },
                        }
                    }
                },
            },
        }
    }
}

/// Whether `a` excludes what `b` excludes and, besides, what lies at or
/// below `c`.
pub open spec fn excludes_also(a: Seq<Seq<Seq<u8>>>, b: Seq<Seq<Seq<u8>>>, c: Seq<Seq<u8>>) -> bool {
    forall|x: Seq<Seq<u8>>|
        #![trigger is_excluded(x, a)]
        #![trigger is_excluded(x, b)]
        is_excluded(x, a) == (is_excluded(x, b) || crate::paths::is_prefix(c, x))
}

proof fn lemma_excludes_also_push(
    a: Seq<Seq<Seq<u8>>>,
    b: Seq<Seq<Seq<u8>>>,
    cx: Seq<Seq<u8>>,
    c: Seq<Seq<u8>>,
)
    requires
        excludes_also(a, b, cx),
    ensures
        excludes_also(a.push(c), b.push(c), cx),
{
    let a2 = a.push(c);
    let b2 = b.push(c);
    assert forall|x: Seq<Seq<u8>>|
        #![trigger is_excluded(x, a2)]
        #![trigger is_excluded(x, b2)]
        is_excluded(x, a2) == (is_excluded(x, b2) || crate::paths::is_prefix(cx, x)) by {
        lemma_excluded_push(a, c, x);
        lemma_excluded_push(b, c, x);
        assert(is_excluded(x, a) == (is_excluded(x, b) || crate::paths::is_prefix(cx, x)));
    }
    assert(excludes_also(a2, b2, cx));
}

proof fn lemma_exclusions_insert_shift(
    ds: Seq<Directive>,
    k: int,
    p: Seq<u8>,
    cx: Seq<Seq<u8>>,
    i: int,
    a: Seq<Seq<Seq<u8>>>,
    b: Seq<Seq<Seq<u8>>>,
)
    requires
        0 <= k <= i <= ds.len(),
        relative_components(p) == Some(cx),
        excludes_also(a, b, cx),
    ensures
        match (exclusions_from(ds.insert(k, Directive::Exclude(p)), i + 1, a), exclusions_from(ds, i, b)) {
            (Ok(x), Ok(y)) => excludes_also(x, y, cx),
            (Err(q1), Err(q2)) => q1 == q2,
            _ => false,
        },
    decreases ds.len() - i,
{
    let e = ds.insert(k, Directive::Exclude(p));
    if i < ds.len() {
        assert(e[i + 1] == ds[i]);
        match ds[i] {
            Directive::Exclude(q) => match relative_components(q) {
                Some(c) => {
                    lemma_excludes_also_push(a, b, cx, c);
                    lemma_exclusions_insert_shift(ds, k, p, cx, i + 1, a.push(c), b.push(c));
                },
                None => {},
            },
            _ => lemma_exclusions_insert_shift(ds, k, p, cx, i + 1, a, b),
        }
    }
}

proof fn lemma_exclusions_insert_prefix(
    ds: Seq<Directive>,
    k: int,
    p: Seq<u8>,
    cx: Seq<Seq<u8>>,
    i: int,
    acc: Seq<Seq<Seq<u8>>>,
)
    requires
        0 <= i <= k <= ds.len(),
        relative_components(p) == Some(cx),
    ensures
        match (exclusions_from(ds.insert(k, Directive::Exclude(p)), i, acc), exclusions_from(ds, i, acc)) {
            (Ok(x), Ok(y)) => excludes_also(x, y, cx),
            (Err(q1), Err(q2)) => q1 == q2,
            _ => false,
        },
    decreases k - i,
{
    let e = ds.insert(k, Directive::Exclude(p));
    if i == k {
        assert(e[k] == Directive::Exclude(p));
        assert forall|x: Seq<Seq<u8>>|
            is_excluded(x, acc.push(cx)) == (is_excluded(x, acc) || crate::paths::is_prefix(cx, x)) by {
            lemma_excluded_push(acc, cx, x);
        }
        lemma_exclusions_insert_shift(ds, k, p, cx, k, acc.push(cx), acc);
    } else {
        assert(e[i] == ds[i]);
        match ds[i] {
            Directive::Exclude(q) => match relative_components(q) {
                Some(c) => lemma_exclusions_insert_prefix(ds, k, p, cx, i + 1, acc.push(c)),
                None => {},
            },
            _ => lemma_exclusions_insert_prefix(ds, k, p, cx, i + 1, acc),
        }
    }
}

/// Where an exclusion stands among the directives of a manifest does not
/// matter: the exclusion `!p` of a valid path, inserted at any two places of
/// the top level, gives the same resolution.
pub proof fn law_exclusion_position_does_not_matter(
    ds: Seq<Directive>,
    k1: int,
    k2: int,
    p: Seq<u8>,
    root: Seq<u8>,
    depth: Option<usize>,
    global: Seq<Rule>,
    fs: FsNode,
)
    requires
        0 <= k1 <= ds.len(),
        0 <= k2 <= ds.len(),
        relative_components(p) is Some,
    ensures
        resolution_spec(ds.insert(k1, Directive::Exclude(p)), root, depth, global, fs)
            == resolution_spec(ds.insert(k2, Directive::Exclude(p)), root, depth, global, fs),
{
    let cx = relative_components(p)->0;
    let d = Directive::Exclude(p);
    lemma_exclusions_insert_prefix(ds, k1, p, cx, 0, seq![]);
    lemma_exclusions_insert_prefix(ds, k2, p, cx, 0, seq![]);
    match (exclusions_from(ds.insert(k1, d), 0, seq![]), exclusions_from(ds.insert(k2, d), 0, seq![])) {
        (Ok(e1), Ok(e2)) => {
            let y = exclusions_from(ds, 0, seq![])->Ok_0;
            assert(same_exclusions(e1, e2)) by {
                assert forall|x: Seq<Seq<u8>>| is_excluded(x, e1) == is_excluded(x, e2) by {
                    assert(is_excluded(x, e1) == (is_excluded(x, y) || crate::paths::is_prefix(cx, x)));
                    assert(is_excluded(x, e2) == (is_excluded(x, y) || crate::paths::is_prefix(cx, x)));
                }
            }
            lemma_resolve_from_prefix(fs, root, seq![], ds, k1, d, e1, depth, global, 0, seq![]);
            lemma_resolve_from_prefix(fs, root, seq![], ds, k2, d, e2, depth, global, 0, seq![]);
            lemma_resolve_from_same_ex(fs, root, seq![], ds, e1, e2, depth, global, 0, seq![]);
        },
        _ => {},
    }
}

proof fn lemma_exclusions_from_keeps(
    ds: Seq<Directive>,
    i: int,
    acc: Seq<Seq<Seq<u8>>>,
    x: Seq<Seq<u8>>,
)
    requires
        0 <= i <= ds.len(),
    ensures
        exclusions_from(ds, i, acc) matches Ok(y) ==> (is_excluded(x, acc) ==> is_excluded(x, y)),
        forall|j: int|
            #![trigger ds[j]]
            i <= j < ds.len() && ds[j] is Exclude && relative_components(ds[j]->Exclude_0) is Some
                && crate::paths::is_prefix(relative_components(ds[j]->Exclude_0)->0, x)
                ==> (exclusions_from(ds, i, acc) matches Ok(y) ==> is_excluded(x, y)),
    decreases ds.len() - i,
{
    if i < ds.len() {
        match ds[i] {
            Directive::Exclude(q) => match relative_components(q) {
                Some(c) => {
                    lemma_excluded_push(acc, c, x);
                    lemma_exclusions_from_keeps(ds, i + 1, acc.push(c), x);
                },
                None => {},
            },
            _ => lemma_exclusions_from_keeps(ds, i + 1, acc, x),
        }
    }
}

/// Repeating an exclusion changes nothing: inserting, anywhere in the top
/// level, another copy of an exclusion of a valid path that the manifest
/// already holds gives the same resolution.
pub proof fn law_repeated_exclusion_changes_nothing(
    ds: Seq<Directive>,
    j: int,
    k: int,
    root: Seq<u8>,
    depth: Option<usize>,
    global: Seq<Rule>,
    fs: FsNode,
)
    requires
        0 <= j < ds.len(),
        ds[j] is Exclude,
        relative_components(ds[j]->Exclude_0) is Some,
        0 <= k <= ds.len(),
    ensures
        resolution_spec(ds.insert(k, ds[j]), root, depth, global, fs) == resolution_spec(
            ds,
            root,
            depth,
            global,
            fs,
        ),
{
    let p = ds[j]->Exclude_0;
    let cx = relative_components(p)->0;
    let d = Directive::Exclude(p);
    assert(ds[j] == d);
    lemma_exclusions_insert_prefix(ds, k, p, cx, 0, seq![]);
    match (exclusions_from(ds.insert(k, d), 0, seq![]), exclusions_from(ds, 0, seq![])) {
        (Ok(e1), Ok(y)) => {
            assert(same_exclusions(e1, y)) by {
                assert forall|x: Seq<Seq<u8>>| is_excluded(x, e1) == is_excluded(x, y) by {
                    lemma_exclusions_from_keeps(ds, 0, seq![], x);
                    assert(is_excluded(x, e1) == (is_excluded(x, y) || crate::paths::is_prefix(cx, x)));
                    if crate::paths::is_prefix(cx, x) {
                        assert(ds[j] is Exclude);
                    }
                }
            }
            lemma_resolve_from_prefix(fs, root, seq![], ds, k, d, e1, depth, global, 0, seq![]);
            lemma_resolve_from_same_ex(fs, root, seq![], ds, e1, y, depth, global, 0, seq![]);
        },
        _ => {},
    }
}

// ---------------------------------------------------------------------------
// Entries in name order.

pub proof fn lemma_bytes_lt_transitive(a: Seq<u8>, b: Seq<u8>, c: Seq<u8>)
    requires
        bytes_lt(a, b),
        bytes_lt(b, c),
    ensures
        bytes_lt(a, c),
    decreases a.len(),
{
    if a.len() > 0 && a[0] == b[0] && b[0] == c[0] {
        lemma_bytes_lt_transitive(a.drop_first(), b.drop_first(), c.drop_first());
    }
}

pub proof fn lemma_bytes_lt_total(a: Seq<u8>, b: Seq<u8>)
    requires
        a != b,
    ensures
        bytes_lt(a, b) || bytes_lt(b, a),
    decreases a.len(),
{
    if a.len() == 0 {
        assert(b.len() > 0) by {
            if b.len() == 0 {
                assert(a =~= b);
            }
        }
    } else if b.len() == 0 {
    } else if a[0] == b[0] {
        if a.drop_first() =~= b.drop_first() {
            assert(a =~= b) by {
                assert forall|k: int| 0 <= k < a.len() implies a[k] == b[k] by {
                    if k > 0 {
                        assert(a[k] == a.drop_first()[k - 1]);
                        assert(b[k] == b.drop_first()[k - 1]);
                    }
                }
            }
        }
        lemma_bytes_lt_total(a.drop_first(), b.drop_first());
    }
}

/// Whether the names of entries strictly increase in byte order.
pub open spec fn names_increase(m: Seq<Sel>) -> bool {
    forall|i: int, j: int| 0 <= i < j < m.len() ==> bytes_lt(#[trigger] m[i].name, #[trigger] m[j].name)
}

/// Whether, in every directory, the names of the entries strictly increase.
pub open spec fn in_name_order(m: Seq<Sel>) -> bool
    decreases m,
{
    &&& names_increase(m)
    &&& forall|i: int| 0 <= i < m.len() ==> sel_in_name_order(#[trigger] m[i])
}

pub open spec fn sel_in_name_order(x: Sel) -> bool
    decreases x,
{
    in_name_order(x.children)
}

proof fn lemma_find_sel_absent(m: Seq<Sel>, name: Seq<u8>, i: int)
    requires
        0 <= i,
        find_sel_from(m, name, i) == -1,
    ensures
        forall|k: int| i <= k < m.len() ==> #[trigger] m[k].name != name,
    decreases m.len() - i,
{
    if i < m.len() {
        lemma_find_sel_absent(m, name, i + 1);
    }
}

proof fn lemma_insert_pos_splits(m: Seq<Sel>, name: Seq<u8>, i: int)
    requires
        0 <= i <= m.len(),
        names_increase(m),
        forall|k: int| 0 <= k < m.len() ==> #[trigger] m[k].name != name,
        forall|k: int| 0 <= k < i ==> bytes_lt(#[trigger] m[k].name, name),
    ensures
        ({
            let p = insert_pos_from(m, name, i);
            &&& i <= p <= m.len()
            &&& forall|k: int| 0 <= k < p ==> bytes_lt(#[trigger] m[k].name, name)
            &&& forall|k: int| p <= k < m.len() ==> bytes_lt(name, #[trigger] m[k].name)
        }),
    decreases m.len() - i,
{
    if i < m.len() {
        if bytes_lt(name, m[i].name) {
            assert forall|k: int| i <= k < m.len() implies bytes_lt(name, #[trigger] m[k].name) by {
                if k > i {
                    lemma_bytes_lt_transitive(name, m[i].name, m[k].name);
                }
            }
        } else {
            lemma_bytes_lt_total(name, m[i].name);
            lemma_insert_pos_splits(m, name, i + 1);
        }
    }
}

/// Storing or merging an entry under its name keeps names increasing.
proof fn lemma_update_or_insert_increase(m: Seq<Sel>, e: Sel, r: Seq<Sel>)
    requires
        names_increase(m),
        ({
            let i = find_sel(m, e.name);
            if 0 <= i < m.len() {
                r.len() == m.len() && forall|k: int| 0 <= k < m.len() ==> #[trigger] r[k].name == m[k].name
            } else {
                r == m.insert(insert_pos(m, e.name), e)
            }
        }),
    ensures
        names_increase(r),
{
    lemma_find_sel_from(m, e.name, 0);
    let i = find_sel(m, e.name);
    if 0 <= i < m.len() {
        assert forall|a: int, b: int| 0 <= a < b < r.len() implies bytes_lt(
            #[trigger] r[a].name,
            #[trigger] r[b].name,
        ) by {
            assert(r[a].name == m[a].name);
            assert(r[b].name == m[b].name);
        }
    } else {
        lemma_find_sel_absent(m, e.name, 0);
        lemma_insert_pos_splits(m, e.name, 0);
        let p = insert_pos(m, e.name);
        assert forall|a: int, b: int| 0 <= a < b < r.len() implies bytes_lt(
            #[trigger] r[a].name,
            #[trigger] r[b].name,
        ) by {
            if b < p {
                assert(r[a] == m[a] && r[b] == m[b]);
            } else if b == p {
                assert(r[a] == m[a] && r[b] == e);
            } else if a < p {
                assert(r[a] == m[a] && r[b] == m[b - 1]);
                lemma_bytes_lt_transitive(m[a].name, e.name, m[b - 1].name);
            } else if a == p {
                assert(r[a] == e && r[b] == m[b - 1]);
            } else {
                assert(r[a] == m[a - 1] && r[b] == m[b - 1]);
            }
        }
    }
}

proof fn lemma_put_in_order(m: Seq<Sel>, e: Sel)
    requires
        in_name_order(m),
        sel_in_name_order(e),
    ensures
        in_name_order(put(m, e)),
{
    lemma_find_sel_from(m, e.name, 0);
    let i = find_sel(m, e.name);
    let r = put(m, e);
    if 0 <= i < m.len() {
        assert forall|k: int| 0 <= k < m.len() implies #[trigger] r[k].name == m[k].name by {
            if k == i {
                assert(r[k] == e);
            }
        }
    }
    lemma_update_or_insert_increase(m, e, r);
    lemma_put_members(m, e);
    assert forall|k: int| 0 <= k < r.len() implies sel_in_name_order(#[trigger] r[k]) by {
        if r[k] != e {
            let j = choose|j: int| 0 <= j < m.len() && m[j] == r[k];
            assert(sel_in_name_order(m[j]));
        }
    }
}

proof fn lemma_merge_entry_in_order(m: Seq<Sel>, e: Sel)
    requires
        in_name_order(m),
        sel_in_name_order(e),
    ensures
        in_name_order(merge_entry(m, e)),
    decreases e, 2int,
{
    lemma_find_sel_from(m, e.name, 0);
    let i = find_sel(m, e.name);
    let r = merge_entry(m, e);
    if 0 <= i < m.len() {
        assert(sel_in_name_order(m[i]));
        lemma_merge_children_in_order(m[i].children, e.children);
        assert forall|k: int| 0 <= k < m.len() implies #[trigger] r[k].name == m[k].name by {}
        lemma_update_or_insert_increase(m, e, r);
        assert forall|k: int| 0 <= k < r.len() implies sel_in_name_order(#[trigger] r[k]) by {
            if k != i {
                assert(r[k] == m[k]);
                assert(sel_in_name_order(m[k]));
            }
        }
    } else {
        lemma_update_or_insert_increase(m, e, r);
        let p = insert_pos(m, e.name);
        lemma_insert_pos_from(m, e.name, 0);
        assert forall|k: int| 0 <= k < r.len() implies sel_in_name_order(#[trigger] r[k]) by {
            if k < p {
                assert(r[k] == m[k]);
                assert(sel_in_name_order(m[k]));
            } else if k > p {
                assert(r[k] == m[k - 1]);
                assert(sel_in_name_order(m[k - 1]));
            }
        }
    }
}

/// Whether each entry has its own selections in name order.
pub open spec fn each_in_name_order(s: Seq<Sel>) -> bool {
    forall|i: int| 0 <= i < s.len() ==> sel_in_name_order(#[trigger] s[i])
}

proof fn lemma_rebuild_in_order(s: Seq<Sel>)
    requires
        each_in_name_order(s),
    ensures
        in_name_order(rebuild(s)),
    decreases s.len(),
{
    if s.len() == 0 {
        assert(in_name_order(Seq::<Sel>::empty()));
    } else {
        assert forall|k: int| 0 <= k < s.drop_last().len() implies sel_in_name_order(
            #[trigger] s.drop_last()[k],
        ) by {
            assert(s.drop_last()[k] == s[k]);
        }
        lemma_rebuild_in_order(s.drop_last());
        assert(sel_in_name_order(s[s.len() - 1]));
        lemma_put_in_order(rebuild(s.drop_last()), s.last());
    }
}

proof fn lemma_merge_children_in_order(existing: Seq<Sel>, add: Seq<Sel>)
    requires
        each_in_name_order(existing),
        each_in_name_order(add),
    ensures
        in_name_order(merge_children(existing, add)),
    decreases add, 1int,
{
    lemma_rebuild_in_order(existing);
    lemma_merge_adds_in_order(rebuild(existing), add);
}

proof fn lemma_merge_adds_in_order(existing: Seq<Sel>, add: Seq<Sel>)
    requires
        in_name_order(existing),
        each_in_name_order(add),
    ensures
        in_name_order(merge_adds(existing, add)),
    decreases add, 0int,
{
    if add.len() > 0 {
        assert(sel_in_name_order(add[0]));
        assert(decreases_to!(add => add[0]));
        lemma_merge_entry_in_order(existing, add[0]);
        let rest = add.subrange(1, add.len() as int);
        assert forall|k: int| 0 <= k < rest.len() implies sel_in_name_order(#[trigger] rest[k]) by {
            assert(rest[k] == add[k + 1]);
        }
        lemma_merge_adds_in_order(merge_entry(existing, add[0]), rest);
    }
}

proof fn lemma_read_names_in_order(
    n: FsNode,
    dir: Seq<u8>,
    rel: Seq<Seq<u8>>,
    names: Seq<String>,
    i: int,
    acc: Seq<Sel>,
)
    requires
        in_name_order(acc),
    ensures
        read_names(n, dir, rel, names, i, acc) matches Ok(r) ==> in_name_order(r),
    decreases names.len() - i,
{
    if 0 <= i < names.len() {
        let name = crate::manifest::utf8_of(names[i]);
        match child_stat(n, name) {
            Probe::Known(Some(kind)) => {
                let e = Sel {
                    name,
                    path: crate::paths::join_path(dir, name),
                    kind,
                    children: seq![],
                };
                assert(in_name_order(e.children));
                lemma_put_in_order(acc, e);
                lemma_read_names_in_order(n, dir, rel, names, i + 1, put(acc, e));
            },
            _ => {},
        }
    }
}

proof fn lemma_read_children_in_order(n: FsNode, dir: Seq<u8>, rel: Seq<Seq<u8>>)
    ensures
        read_children(n, dir, rel) matches Ok(r) ==> in_name_order(r),
{
    match n.listing {
        Probe::Known(names) => {
            assert(in_name_order(Seq::<Sel>::empty()));
            lemma_read_names_in_order(n, dir, rel, names@, 0, seq![]);
        },
        _ => {},
    }
}

proof fn lemma_resolve_recursive_in_order(
    n: FsNode,
    dir: Seq<u8>,
    rel: Seq<Seq<u8>>,
    local: Seq<Seq<u8>>,
    budget: Option<usize>,
    ex: Seq<Seq<Seq<u8>>>,
    git: Option<Seq<Rule>>,
)
    ensures
        resolve_recursive(n, dir, rel, local, budget, ex, git) matches Ok(r) ==> in_name_order(r),
    decreases n, 1int, 0int,
{
    lemma_read_children_in_order(n, dir, rel);
    match read_children(n, dir, rel) {
        Err(_) => {},
        Ok(cs) => match rules_in(n, dir, rel, local, git) {
            Err(_) => {},
            Ok(g) => {
                assert(in_name_order(Seq::<Sel>::empty()));
                lemma_recurse_children_in_order(n, rel, local, budget, ex, g, cs, 0, seq![]);
            },
        },
    }
}

proof fn lemma_recurse_children_in_order(
    n: FsNode,
    rel: Seq<Seq<u8>>,
    local: Seq<Seq<u8>>,
    budget: Option<usize>,
    ex: Seq<Seq<Seq<u8>>>,
    git: Option<Seq<Rule>>,
    cs: Seq<Sel>,
    i: int,
    acc: Seq<Sel>,
)
    requires
        in_name_order(cs),
        in_name_order(acc),
    ensures
        recurse_children(n, rel, local, budget, ex, git, cs, i, acc) matches Ok(r) ==> in_name_order(r),
    decreases n, 0int, cs.len() - i,
{
    if 0 <= i < cs.len() {
        let c = cs[i];
        assert(sel_in_name_order(c));
        let loc = local.push(c.name);
        if is_excluded(loc, ex) || skipped_by_git(git, loc, c.kind) {
            lemma_recurse_children_in_order(n, rel, local, budget, ex, git, cs, i + 1, acc);
        } else if expands(c.kind, budget) {
            let ci = child_index(n, c.name);
            if 0 <= ci < n.children.len() {
                assert(decreases_to!(n => n.children@[ci].node));
                lemma_resolve_recursive_in_order(
                    n.children@[ci].node,
                    c.path,
                    rel.push(c.name),
                    loc,
                    lower(budget),
                    ex,
                    git,
                );
                match resolve_recursive(
                    n.children@[ci].node,
                    c.path,
                    rel.push(c.name),
                    loc,
                    lower(budget),
                    ex,
                    git,
                ) {
                    Err(_) => {},
                    Ok(sub) => {
                        let e = Sel { name: c.name, path: c.path, kind: c.kind, children: sub };
                        lemma_put_in_order(acc, e);
                        lemma_recurse_children_in_order(
                            n,
                            rel,
                            local,
                            budget,
                            ex,
                            git,
                            cs,
                            i + 1,
                            put(acc, e),
                        );
                    },
                }
            }
        } else {
            lemma_put_in_order(acc, c);
            lemma_recurse_children_in_order(n, rel, local, budget, ex, git, cs, i + 1, put(acc, c));
        }
    }
}

proof fn lemma_place_literal_in_order(
    m: Seq<Sel>,
    n: FsNode,
    dir: Seq<u8>,
    rel: Seq<Seq<u8>>,
    comps: Seq<Seq<u8>>,
    fin: Option<Seq<Sel>>,
)
    requires
        in_name_order(m),
        fin matches Some(cs) ==> in_name_order(cs),
    ensures
        place_literal(m, n, dir, rel, comps, fin) matches Ok(r) ==> in_name_order(r),
    decreases comps.len(),
{
    if comps.len() > 0 {
        let name = comps[0];
        let path = crate::paths::join_path(dir, name);
        let rest = comps.drop_first();
        match child_stat(n, name) {
            Probe::Known(Some(kind)) => {
                lemma_find_sel_from(m, name, 0);
                let i = find_sel(m, name);
                let e = if 0 <= i < m.len() {
                    m[i]
                } else {
                    Sel { name, path, kind, children: seq![] }
                };
                assert(sel_in_name_order(e)) by {
                    if !(0 <= i < m.len()) {
                        assert(in_name_order(Seq::<Sel>::empty()));
                    }
                }
                if rest.len() == 0 {
                    match fin {
                        Some(cs) => {
                            lemma_merge_children_in_order(e.children, cs);
                            let x = Sel {
                                name: e.name,
                                path: e.path,
                                kind: e.kind,
                                children: merge_children(e.children, cs),
                            };
                            lemma_put_in_order(m, x);
                        },
                        None => {
                            lemma_put_in_order(m, e);
                        },
                    }
                } else if kind != ResolvedEntryKind::Directory {
                    lemma_put_in_order(m, e);
                } else {
                    let ci = child_index(n, name);
                    lemma_place_literal_in_order(
                        e.children,
                        n.children@[ci].node,
                        path,
                        rel.push(name),
                        rest,
                        fin,
                    );
                    match place_literal(e.children, n.children@[ci].node, path, rel.push(name), rest, fin) {
                        Err(_) => {},
                        Ok(sub) => {
                            let x = Sel { name: e.name, path: e.path, kind: e.kind, children: sub };
                            lemma_put_in_order(m, x);
                        },
                    }
                }
            },
            _ => {},
        }
    }
}

proof fn lemma_insert_literal_in_order(
    m: Seq<Sel>,
    n: FsNode,
    dir: Seq<u8>,
    rel: Seq<Seq<u8>>,
    comps: Seq<Seq<u8>>,
    fin: Option<Seq<Sel>>,
)
    requires
        in_name_order(m),
        fin matches Some(cs) ==> in_name_order(cs),
    ensures
        insert_literal(m, n, dir, rel, comps, fin) matches Ok(r) ==> in_name_order(r),
{
    lemma_place_literal_in_order(m, n, dir, rel, comps, fin);
}

proof fn lemma_merge_listed_in_order(m: Seq<Sel>, cs: Seq<Sel>, ex: Seq<Seq<Seq<u8>>>, i: int)
    requires
        in_name_order(m),
        in_name_order(cs),
    ensures
        in_name_order(merge_listed(m, cs, ex, i)),
    decreases cs.len() - i,
{
    if 0 <= i < cs.len() {
        assert(sel_in_name_order(cs[i]));
        if is_excluded(seq![cs[i].name], ex) {
            lemma_merge_listed_in_order(m, cs, ex, i + 1);
        } else {
            lemma_merge_entry_in_order(m, cs[i]);
            lemma_merge_listed_in_order(merge_entry(m, cs[i]), cs, ex, i + 1);
        }
    }
}

proof fn lemma_resolve_entries_in_order(
    n: FsNode,
    dir: Seq<u8>,
    rel: Seq<Seq<u8>>,
    ds: Seq<Directive>,
    depth: Option<usize>,
    global: Seq<Rule>,
    inh: Seq<Seq<Seq<u8>>>,
)
    ensures
        resolve_entries(n, dir, rel, ds, depth, global, inh) matches Ok(r) ==> in_name_order(r),
    decreases ds, ds.len() + 1,
{
    match exclusions_from(ds, 0, inh) {
        Err(_) => {},
        Ok(ex) => {
            assert(in_name_order(Seq::<Sel>::empty()));
            lemma_resolve_from_in_order(n, dir, rel, ds, ex, depth, global, 0, seq![]);
        },
    }
}

proof fn lemma_resolve_from_in_order(
    n: FsNode,
    dir: Seq<u8>,
    rel: Seq<Seq<u8>>,
    ds: Seq<Directive>,
    ex: Seq<Seq<Seq<u8>>>,
    depth: Option<usize>,
    global: Seq<Rule>,
    i: int,
    m: Seq<Sel>,
)
    requires
        in_name_order(m),
    ensures
        resolve_from(n, dir, rel, ds, ex, depth, global, i, m) matches Ok(r) ==> in_name_order(r),
    decreases ds, ds.len() - i,
{
    if 0 <= i < ds.len() {
        match ds[i] {
            Directive::Include(p) => match relative_components(p) {
                None => {},
                Some(c) => if is_excluded(c, ex) {
                    lemma_resolve_from_in_order(n, dir, rel, ds, ex, depth, global, i + 1, m);
                } else {
                    lemma_insert_literal_in_order(m, n, dir, rel, c, None);
                    match insert_literal(m, n, dir, rel, c, None) {
                        Err(_) => {},
                        Ok(m2) => lemma_resolve_from_in_order(n, dir, rel, ds, ex, depth, global, i + 1, m2),
                    }
                },
            },
            Directive::Exclude(_) => lemma_resolve_from_in_order(n, dir, rel, ds, ex, depth, global, i + 1, m),
            Directive::Children => {
                lemma_read_children_in_order(n, dir, rel);
                match read_children(n, dir, rel) {
                    Err(_) => {},
                    Ok(cs) => {
                        lemma_merge_listed_in_order(m, cs, ex, 0);
                        lemma_resolve_from_in_order(
                            n,
                            dir,
                            rel,
                            ds,
                            ex,
                            depth,
                            global,
                            i + 1,
                            merge_listed(m, cs, ex, 0),
                        );
                    },
                }
            },
            Directive::Recursive | Directive::RecursiveAll => if depth == Some(0usize) {
                lemma_resolve_from_in_order(n, dir, rel, ds, ex, depth, global, i + 1, m);
            } else {
                lemma_resolve_recursive_in_order(n, dir, rel, seq![], depth, ex, recursion_rules(ds[i], global));
                match resolve_recursive(n, dir, rel, seq![], depth, ex, recursion_rules(ds[i], global)) {
                    Err(_) => {},
                    Ok(rs) => {
                        lemma_merge_children_in_order(m, rs);
                        lemma_resolve_from_in_order(
                            n,
                            dir,
                            rel,
                            ds,
                            ex,
                            depth,
                            global,
                            i + 1,
                            merge_children(m, rs),
                        );
                    },
                }
            },
            Directive::Descend(p, sub) => match relative_components(p) {
                None => {},
                Some(c) => if is_excluded(c, ex) {
                    lemma_resolve_from_in_order(n, dir, rel, ds, ex, depth, global, i + 1, m);
                } else {
                    match node_at(n, c) {
                        None => {},
                        Some(t) => match t.stat {
                            Probe::Known(None) => lemma_resolve_from_in_order(
                                n,
                                dir,
                                rel,
                                ds,
                                ex,
                                depth,
                                global,
                                i + 1,
                                m,
                            ),
                            Probe::Known(Some(kind)) => if kind != ResolvedEntryKind::Directory {
                                lemma_resolve_from_in_order(n, dir, rel, ds, ex, depth, global, i + 1, m);
                            } else {
                                assert(decreases_to!(ds => sub));
                                lemma_resolve_entries_in_order(
                                    t,
                                    join_all_path(dir, c),
                                    rel + c,
                                    sub,
                                    depth,
                                    global,
                                    exclusions_below(ex, c, 0),
                                );
                                match resolve_entries(t, join_all_path(dir, c), rel + c, sub, depth, global, exclusions_below(ex, c, 0)) {
                                    Err(_) => {},
                                    Ok(children) => {
                                        lemma_insert_literal_in_order(
                                            m,
                                            n,
                                            dir,
                                            rel,
                                            c,
                                            Some(children),
                                        );
                                        match insert_literal(m, n, dir, rel, c, Some(children)) {
                                            Err(_) => {},
                                            Ok(m2) => lemma_resolve_from_in_order(
                                                n,
                                                dir,
                                                rel,
                                                ds,
                                                ex,
                                                depth,
                                                global,
                                                i + 1,
                                                m2,
                                            ),
                                        }
                                    },
                                }
                            },
                            _ => {},
                        },
                    }
                },
            },
        }
    }
}

/// Entries are kept in name order: a resolved tree is the selection of a
/// manifest with the names dropped, and in every directory of that selection
/// the names of the entries strictly increase in byte order, so no name is
/// selected twice.
pub proof fn law_entries_are_in_name_order(
    ds: Seq<Directive>,
    root: Seq<u8>,
    depth: Option<usize>,
    global: Seq<Rule>,
    fs: FsNode,
)
    ensures
        resolution_spec(ds, root, depth, global, fs) matches Ok(es) ==> (resolve_entries(
            fs,
            root,
            seq![],
            ds,
            depth,
            global,
            seq![],
        ) matches Ok(sels) && in_name_order(sels) && es == Seq::new(
            sels.len(),
            |i: int| strip(sels[i]),
        )),
{
    lemma_resolve_entries_in_order(fs, root, seq![], ds, depth, global, seq![]);
}

// ---------------------------------------------------------------------------
// The shape of a resolved tree.

/// Whether, at every level, each entry's path is the path of the directory
/// above it joined with the entry's name, and an entry with selected children
/// is a directory.
pub open spec fn paths_follow_names(s: Seq<Sel>, parent: Seq<u8>) -> bool
    decreases s,
{
    forall|i: int| 0 <= i < s.len() ==> sel_path_follows(#[trigger] s[i], parent)
}

pub open spec fn sel_path_follows(x: Sel, parent: Seq<u8>) -> bool
    decreases x,
{
    &&& x.path == join_path(parent, x.name)
    &&& x.children.len() > 0 ==> x.kind == ResolvedEntryKind::Directory
    &&& paths_follow_names(x.children, x.path)
}

proof fn lemma_agrees_paths(n: FsNode, dir: Seq<u8>, s: Seq<Sel>)
    requires
        agrees(n, dir, s),
    ensures
        paths_follow_names(s, dir),
    decreases s,
{
    assert forall|i: int| 0 <= i < s.len() implies sel_path_follows(#[trigger] s[i], dir) by {
        let x = s[i];
        assert(sel_agrees(n, dir, x));
        let ci = child_index(n, x.name);
        assert(decreases_to!(s => s[i]));
        if x.children.len() > 0 {
            assert(decreases_to!(s => s[i].children));
            lemma_agrees_paths(n.children@[ci].node, x.path, x.children);
        } else {
            assert(paths_follow_names(x.children, x.path));
        }
    }
}

/// Whether every entry, at every level, is named by one normal component.
pub open spec fn names_normal(s: Seq<Sel>) -> bool
    decreases s,
{
    forall|i: int| 0 <= i < s.len() ==> sel_name_normal(#[trigger] s[i])
}

pub open spec fn sel_name_normal(x: Sel) -> bool
    decreases x,
{
    is_normal_name(x.name) && names_normal(x.children)
}

proof fn lemma_agrees_names(n: FsNode, dir: Seq<u8>, s: Seq<Sel>)
    requires
        agrees(n, dir, s),
        normal_listings(n),
    ensures
        names_normal(s),
    decreases s,
{
    assert forall|i: int| 0 <= i < s.len() implies sel_name_normal(#[trigger] s[i]) by {
        let x = s[i];
        assert(sel_agrees(n, dir, x));
        let ci = child_index(n, x.name);
        assert(decreases_to!(s => s[i]));
        if x.children.len() > 0 {
            assert(decreases_to!(s => s[i].children));
            assert(normal_listings(n.children@[ci].node));
            lemma_agrees_names(n.children@[ci].node, x.path, x.children);
        } else {
            assert(names_normal(x.children));
        }
    }
}

/// The shape of a resolved tree: it is the selection of the manifest with
/// the names dropped; in every directory of that selection the names of the
/// entries strictly increase; each entry's path is the path of the directory
/// above it (the root for the top level) joined with its name; only
/// directories have selected children, so symbolic links are never expanded;
/// and, when the directory listings hold names of single entries (as a real
/// directory's do), every name is one normal component.
pub proof fn law_resolved_tree_shape(
    ds: Seq<Directive>,
    root: Seq<u8>,
    depth: Option<usize>,
    global: Seq<Rule>,
    fs: FsNode,
)
    ensures
        resolution_spec(ds, root, depth, global, fs) matches Ok(es) ==> (resolve_entries(
            fs,
            root,
            seq![],
            ds,
            depth,
            global,
            seq![],
        ) matches Ok(sels) && es == Seq::new(sels.len(), |i: int| strip(sels[i])) && in_name_order(
            sels,
        ) && paths_follow_names(sels, root) && (normal_listings(fs) ==> names_normal(sels))),
{
    lemma_resolve_entries_in_order(fs, root, seq![], ds, depth, global, seq![]);
    lemma_resolve_entries_agrees(fs, root, seq![], ds, depth, global, seq![]);
    match resolve_entries(fs, root, seq![], ds, depth, global, seq![]) {
        Ok(sels) => {
            lemma_agrees_paths(fs, root, sels);
            if normal_listings(fs) {
                lemma_agrees_names(fs, root, sels);
            }
        },
        Err(_) => {},
    }
}


// ---------------------------------------------------------------------------
// Order and repetition of directives.

/// Whether the entry `x` is the first step of the path `q` of names and holds
/// the rest of it.
pub open spec fn sel_has(x: Sel, q: Seq<Seq<u8>>) -> bool
    decreases q.len(), 0int,
{
    q.len() > 0 && x.name == q[0] && (q.len() == 1 || has_path(x.children, q.drop_first()))
}

/// Whether the selection `s` holds the entry reached through the names `q`.
pub open spec fn has_path(s: Seq<Sel>, q: Seq<Seq<u8>>) -> bool
    decreases q.len(), 1int,
{
    exists|k: int| 0 <= k < s.len() && sel_has(#[trigger] s[k], q)
}

proof fn lemma_bytes_lt_irreflexive(a: Seq<u8>)
    ensures
        !bytes_lt(a, a),
    decreases a.len(),
{
    if a.len() > 0 {
        lemma_bytes_lt_irreflexive(a.drop_first());
    }
}

/// In name order, an entry's name is found at its index only.
proof fn lemma_names_distinct(m: Seq<Sel>, i: int, j: int)
    requires
        names_increase(m),
        0 <= i < m.len(),
        0 <= j < m.len(),
        m[i].name == m[j].name,
    ensures
        i == j,
{
    if i < j {
        lemma_bytes_lt_irreflexive(m[i].name);
    } else if j < i {
        lemma_bytes_lt_irreflexive(m[i].name);
    }
}

/// In name order, the path holds through the entry of its first name.
proof fn lemma_has_path_at(m: Seq<Sel>, k: int, q: Seq<Seq<u8>>)
    requires
        names_increase(m),
        0 <= k < m.len(),
        q.len() > 0,
        q[0] == m[k].name,
    ensures
        has_path(m, q) == sel_has(m[k], q),
{
    if has_path(m, q) {
        let j = choose|j: int| 0 <= j < m.len() && sel_has(#[trigger] m[j], q);
        lemma_names_distinct(m, j, k);
    }
}

proof fn lemma_put_paths(m: Seq<Sel>, e: Sel)
    requires
        names_increase(m),
    ensures
        forall|q: Seq<Seq<u8>>|
            #[trigger] has_path(put(m, e), q) == (sel_has(e, q) || (has_path(m, q) && !(q.len() > 0
                && q[0] == e.name))),
{
    lemma_find_sel_from(m, e.name, 0);
    let i = find_sel(m, e.name);
    let r = put(m, e);
    if 0 <= i < m.len() {
        assert forall|q: Seq<Seq<u8>>|
            #[trigger] has_path(r, q) == (sel_has(e, q) || (has_path(m, q) && !(q.len() > 0 && q[0]
                == e.name))) by {
            if has_path(r, q) {
                let k = choose|k: int| 0 <= k < r.len() && sel_has(#[trigger] r[k], q);
                if k != i {
                    assert(r[k] == m[k]);
                    if q[0] == e.name {
                        lemma_names_distinct(m, k, i);
                    }
                }
            }
            if sel_has(e, q) {
                assert(sel_has(r[i], q));
            }
            if has_path(m, q) && !(q.len() > 0 && q[0] == e.name) {
                let k = choose|k: int| 0 <= k < m.len() && sel_has(#[trigger] m[k], q);
                assert(k != i);
                assert(r[k] == m[k]);
                assert(sel_has(r[k], q));
            }
        }
    } else {
        lemma_find_sel_absent(m, e.name, 0);
        lemma_insert_pos_splits(m, e.name, 0);
        let p = insert_pos(m, e.name);
        assert forall|q: Seq<Seq<u8>>|
            #[trigger] has_path(r, q) == (sel_has(e, q) || (has_path(m, q) && !(q.len() > 0 && q[0]
                == e.name))) by {
            if has_path(r, q) {
                let k = choose|k: int| 0 <= k < r.len() && sel_has(#[trigger] r[k], q);
                if k < p {
                    assert(r[k] == m[k]);
                } else if k > p {
                    assert(r[k] == m[k - 1]);
                }
            }
            if sel_has(e, q) {
                assert(r[p] == e);
                assert(sel_has(r[p], q));
            }
            if has_path(m, q) {
                let k = choose|k: int| 0 <= k < m.len() && sel_has(#[trigger] m[k], q);
                if k < p {
                    assert(r[k] == m[k]);
                    assert(sel_has(r[k], q));
                } else {
                    assert(r[k + 1] == m[k]);
                    assert(sel_has(r[k + 1], q));
                }
            }
        }
    }
}

proof fn lemma_merge_entry_paths(m: Seq<Sel>, e: Sel)
    requires
        in_name_order(m),
        sel_in_name_order(e),
    ensures
        forall|q: Seq<Seq<u8>>|
            #[trigger] has_path(merge_entry(m, e), q) == (has_path(m, q) || sel_has(e, q)),
    decreases e, 2int,
{
    lemma_find_sel_from(m, e.name, 0);
    let i = find_sel(m, e.name);
    if 0 <= i < m.len() {
        let o = m[i];
        assert(sel_in_name_order(o));
        let x = Sel {
            name: o.name,
            path: o.path,
            kind: o.kind,
            children: merge_children(o.children, e.children),
        };
        assert(merge_entry(m, e) == put(m, x));
        lemma_put_paths(m, x);
        assert(decreases_to!(e => e.children));
        assert(each_in_name_order(o.children));
        assert(each_in_name_order(e.children));
        lemma_merge_children_paths(o.children, e.children);
        assert forall|q: Seq<Seq<u8>>|
            #[trigger] has_path(merge_entry(m, e), q) == (has_path(m, q) || sel_has(e, q)) by {
            if q.len() > 0 && q[0] == e.name {
                lemma_has_path_at(m, i, q);
                if q.len() > 1 {
                    assert(has_path(x.children, q.drop_first()) == (has_path(
                        o.children,
                        q.drop_first(),
                    ) || has_path(e.children, q.drop_first())));
                }
            }
        }
    } else {
        lemma_find_sel_absent(m, e.name, 0);
        assert(merge_entry(m, e) == put(m, e));
        lemma_put_paths(m, e);
        assert forall|q: Seq<Seq<u8>>|
            #[trigger] has_path(merge_entry(m, e), q) == (has_path(m, q) || sel_has(e, q)) by {
            if has_path(m, q) && q.len() > 0 && q[0] == e.name {
                let k = choose|k: int| 0 <= k < m.len() && sel_has(#[trigger] m[k], q);
                assert(m[k].name != e.name);
            }
        }
    }
}

proof fn lemma_rebuild_paths(s: Seq<Sel>)
    requires
        in_name_order(s),
    ensures
        forall|q: Seq<Seq<u8>>| #[trigger] has_path(rebuild(s), q) == has_path(s, q),
    decreases s.len(),
{
    if s.len() > 0 {
        let init = s.drop_last();
        assert(in_name_order(init)) by {
            assert forall|i: int, j: int| 0 <= i < j < init.len() implies bytes_lt(
                #[trigger] init[i].name,
                #[trigger] init[j].name,
            ) by {
                assert(init[i] == s[i] && init[j] == s[j]);
            }
            assert forall|i: int| 0 <= i < init.len() implies sel_in_name_order(#[trigger] init[i]) by {
                assert(init[i] == s[i]);
            }
        }
        lemma_rebuild_paths(init);
        assert(each_in_name_order(init)) by {
            assert forall|i: int| 0 <= i < init.len() implies sel_in_name_order(#[trigger] init[i]) by {
                assert(init[i] == s[i]);
            }
        }
        lemma_rebuild_in_order(init);
        lemma_put_paths(rebuild(init), s.last());
        assert forall|q: Seq<Seq<u8>>| #[trigger] has_path(rebuild(s), q) == has_path(s, q) by {
            assert(has_path(rebuild(init), q) == has_path(init, q));
            if has_path(s, q) {
                let k = choose|k: int| 0 <= k < s.len() && sel_has(#[trigger] s[k], q);
                if k < init.len() {
                    assert(init[k] == s[k]);
                    assert(sel_has(init[k], q));
                }
            }
            if has_path(init, q) {
                let k = choose|k: int| 0 <= k < init.len() && sel_has(#[trigger] init[k], q);
                assert(init[k] == s[k]);
                assert(sel_has(s[k], q));
                if q[0] == s.last().name {
                    lemma_names_distinct(s, k, s.len() - 1);
                }
            }
            if sel_has(s.last(), q) {
                assert(sel_has(s[s.len() - 1], q));
            }
        }
    }
}

proof fn lemma_merge_children_paths(existing: Seq<Sel>, add: Seq<Sel>)
    requires
        each_in_name_order(existing),
        names_increase(existing),
        each_in_name_order(add),
    ensures
        forall|q: Seq<Seq<u8>>|
            #[trigger] has_path(merge_children(existing, add), q) == (has_path(existing, q)
                || has_path(add, q)),
    decreases add, 1int,
{
    assert(in_name_order(existing));
    lemma_rebuild_paths(existing);
    lemma_rebuild_in_order(existing);
    lemma_merge_adds_paths(rebuild(existing), add);
    assert(merge_children(existing, add) == merge_adds(rebuild(existing), add));
    assert forall|q: Seq<Seq<u8>>|
        #[trigger] has_path(merge_children(existing, add), q) == (has_path(existing, q) || has_path(
            add,
            q,
        )) by {
        assert(has_path(merge_adds(rebuild(existing), add), q) == (has_path(rebuild(existing), q)
            || has_path(add, q)));
        assert(has_path(rebuild(existing), q) == has_path(existing, q));
    }
}

proof fn lemma_merge_adds_paths(existing: Seq<Sel>, add: Seq<Sel>)
    requires
        in_name_order(existing),
        each_in_name_order(add),
    ensures
        forall|q: Seq<Seq<u8>>|
            #[trigger] has_path(merge_adds(existing, add), q) == (has_path(existing, q)
                || has_path(add, q)),
    decreases add, 0int,
{
    if add.len() > 0 {
        let rest = add.subrange(1, add.len() as int);
        assert(sel_in_name_order(add[0]));
        assert(decreases_to!(add => add[0]));
        lemma_merge_entry_paths(existing, add[0]);
        lemma_merge_entry_in_order(existing, add[0]);
        assert(each_in_name_order(rest)) by {
            assert forall|k: int| 0 <= k < rest.len() implies sel_in_name_order(#[trigger] rest[k]) by {
                assert(rest[k] == add[k + 1]);
            }
        }
        lemma_merge_adds_paths(merge_entry(existing, add[0]), rest);
        let me = merge_entry(existing, add[0]);
        assert(merge_adds(existing, add) == merge_adds(me, rest));
        assert forall|q: Seq<Seq<u8>>|
            #[trigger] has_path(merge_adds(existing, add), q) == (has_path(existing, q)
                || has_path(add, q)) by {
            assert(has_path(merge_adds(me, rest), q) == (has_path(me, q) || has_path(rest, q)));
            assert(has_path(me, q) == (has_path(existing, q) || sel_has(add[0], q)));
            if has_path(add, q) {
                let k = choose|k: int| 0 <= k < add.len() && sel_has(#[trigger] add[k], q);
                if k > 0 {
                    assert(rest[k - 1] == add[k]);
                    assert(sel_has(rest[k - 1], q));
                }
            }
            if has_path(rest, q) {
                let k = choose|k: int| 0 <= k < rest.len() && sel_has(#[trigger] rest[k], q);
                assert(rest[k] == add[k + 1]);
                assert(sel_has(add[k + 1], q));
            }
            if sel_has(add[0], q) {
                assert(has_path(add, q));
            }
        }
    } else {
        assert forall|q: Seq<Seq<u8>>| !has_path(add, q) by {}
    }
}


/// Whether the literal path `comps`, with the selection `fin` below it,
/// holds the entry reached through `q`: a leading part of `comps`, or
/// `comps` followed by a path of `fin`.
pub open spec fn lit_has(comps: Seq<Seq<u8>>, fin: Option<Seq<Sel>>, q: Seq<Seq<u8>>) -> bool {
    ||| 0 < q.len() <= comps.len() && q == comps.take(q.len() as int)
    ||| (fin matches Some(cs) && q.len() > comps.len() && q.take(comps.len() as int) == comps
        && has_path(cs, q.skip(comps.len() as int)))
}

proof fn lemma_lit_step(comps: Seq<Seq<u8>>, fin: Option<Seq<Sel>>, q: Seq<Seq<u8>>)
    requires
        comps.len() > 0,
        q.len() > 0,
    ensures
        lit_has(comps, fin, q) == (q[0] == comps[0] && (q.len() == 1 || lit_has(
            comps.drop_first(),
            fin,
            q.drop_first(),
        ))),
{
    let c2 = comps.drop_first();
    let q2 = q.drop_first();
    if q.len() <= comps.len() && q == comps.take(q.len() as int) {
        assert(q[0] == comps.take(q.len() as int)[0]);
        if q.len() > 1 {
            assert(q2 =~= c2.take(q2.len() as int));
        }
    }
    if q.len() > 0 && q[0] == comps[0] && q.len() > 1 && 0 < q2.len() <= c2.len() && q2 == c2.take(
        q2.len() as int,
    ) {
        assert(q =~= comps.take(q.len() as int)) by {
            assert forall|k: int| 0 <= k < q.len() implies q[k] == comps.take(q.len() as int)[k] by {
                if k > 0 {
                    assert(q[k] == q2[k - 1]);
                    assert(c2.take(q2.len() as int)[k - 1] == comps[k]);
                }
            }
        }
    }
    if q.len() == 1 && q[0] == comps[0] {
        assert(q =~= comps.take(1));
    }
    match fin {
        Some(cs) => {
            if q.len() > comps.len() {
                assert(q.skip(comps.len() as int) =~= q2.skip(c2.len() as int));
            }
            if q.len() > comps.len() && q.take(comps.len() as int) == comps {
                assert(q[0] == q.take(comps.len() as int)[0]);
                assert(q2.take(c2.len() as int) =~= c2) by {
                    assert forall|k: int| 0 <= k < c2.len() implies q2.take(c2.len() as int)[k]
                        == c2[k] by {
                        assert(q.take(comps.len() as int)[k + 1] == comps[k + 1]);
                    }
                }
            }
            if q[0] == comps[0] && q.len() > 1 && q2.len() > c2.len() && q2.take(c2.len() as int)
                == c2 {
                assert(q.take(comps.len() as int) =~= comps) by {
                    assert forall|k: int| 0 <= k < comps.len() implies q.take(comps.len() as int)[k]
                        == comps[k] by {
                        if k > 0 {
                            assert(q2.take(c2.len() as int)[k - 1] == c2[k - 1]);
                        }
                    }
                }
            }
        },
        None => {},
    }
}

proof fn lemma_place_literal_paths(
    m: Seq<Sel>,
    n: FsNode,
    dir: Seq<u8>,
    rel: Seq<Seq<u8>>,
    comps: Seq<Seq<u8>>,
    fin: Option<Seq<Sel>>,
)
    requires
        in_name_order(m),
        comps.len() > 0,
        probe_literal(n, dir, rel, comps) == Ok::<bool, SpecStop>(true),
        fin matches Some(cs) ==> in_name_order(cs),
    ensures
        place_literal(m, n, dir, rel, comps, fin) is Ok,
        place_literal(m, n, dir, rel, comps, fin) matches Ok(r) ==> forall|q: Seq<Seq<u8>>|
            #[trigger] has_path(r, q) == (has_path(m, q) || lit_has(comps, fin, q)),
    decreases comps.len(),
{
    let name = comps[0];
    let path = crate::paths::join_path(dir, name);
    let rest = comps.drop_first();
    let kind = child_stat(n, name)->Known_0->Some_0;
    lemma_find_sel_from(m, name, 0);
    let i = find_sel(m, name);
    let e = if 0 <= i < m.len() {
        m[i]
    } else {
        Sel { name, path, kind, children: seq![] }
    };
    if 0 <= i < m.len() {
        assert(sel_in_name_order(m[i]));
    } else {
        assert(in_name_order(e.children)) by {
            assert(e.children =~= Seq::<Sel>::empty());
        }
    }
    assert(in_name_order(e.children));
    assert(e.name == name);
    if rest.len() == 0 {
        match fin {
            Some(cs) => {
                let x = Sel { name: e.name, path: e.path, kind: e.kind, children: merge_children(e.children, cs) };
                lemma_merge_children_paths(e.children, cs);
                lemma_put_paths(m, x);
                assert forall|q: Seq<Seq<u8>>|
                    #[trigger] has_path(put(m, x), q) == (has_path(m, q) || lit_has(comps, fin, q)) by {
                    if q.len() > 0 {
                        lemma_lit_step(comps, fin, q);
                        if q.len() > 1 {
                            let q2 = q.drop_first();
                            assert(lit_has(rest, fin, q2) == has_path(cs, q2)) by {
                                assert(q2.take(0) =~= rest);
                                assert(q2.skip(0) =~= q2);
                            }
                        }
                        if q.len() > 1 {
                            assert(has_path(x.children, q.drop_first()) == (has_path(
                                e.children,
                                q.drop_first(),
                            ) || has_path(cs, q.drop_first())));
                        }
                        if 0 <= i < m.len() && q[0] == name {
                            lemma_has_path_at(m, i, q);
                            assert(e == m[i]);
                        }
                        if !(0 <= i < m.len()) && q[0] == name {
                            lemma_find_sel_absent(m, name, 0);
                            if has_path(m, q) {
                                let k = choose|k: int| 0 <= k < m.len() && sel_has(#[trigger] m[k], q);
                                assert(m[k].name == name);
                            }
                            assert(e.children.len() == 0);
                            if q.len() > 1 {
                                assert(!has_path(e.children, q.drop_first()));
                            }
                        }
                    }
                }
            },
            None => {
                lemma_put_paths(m, e);
                assert forall|q: Seq<Seq<u8>>|
                    #[trigger] has_path(put(m, e), q) == (has_path(m, q) || lit_has(comps, fin, q)) by {
                    if q.len() > 0 {
                        lemma_lit_step(comps, fin, q);
                        if q.len() > 1 {
                            assert(!lit_has(rest, fin, q.drop_first()));
                        }
                        assert(lit_has(comps, fin, q) == (q[0] == name && q.len() == 1));
                        if 0 <= i < m.len() && q[0] == name {
                            lemma_has_path_at(m, i, q);
                            assert(e == m[i]);
                        }
                        if !(0 <= i < m.len()) && q[0] == name {
                            lemma_find_sel_absent(m, name, 0);
                            if has_path(m, q) {
                                let k = choose|k: int| 0 <= k < m.len() && sel_has(#[trigger] m[k], q);
                                assert(m[k].name == name);
                            }
                            assert(e.children.len() == 0);
                            if q.len() > 1 {
                                assert(!has_path(e.children, q.drop_first()));
                            }
                            assert(sel_has(e, q) == (q.len() == 1));
                        }
                    }
                }
            },
        }
    } else {
        let ci = child_index(n, name);
        let child = n.children@[ci].node;
        assert(kind == ResolvedEntryKind::Directory);
        assert(probe_literal(child, path, rel.push(name), rest) == Ok::<bool, SpecStop>(true));
        lemma_place_literal_paths(e.children, child, path, rel.push(name), rest, fin);
        let sub = place_literal(e.children, child, path, rel.push(name), rest, fin)->Ok_0;
        let x = Sel { name: e.name, path: e.path, kind: e.kind, children: sub };
        lemma_put_paths(m, x);
        assert forall|q: Seq<Seq<u8>>|
            #[trigger] has_path(put(m, x), q) == (has_path(m, q) || lit_has(comps, fin, q)) by {
            if q.len() > 0 {
                lemma_lit_step(comps, fin, q);
                if q.len() > 1 {
                    assert(has_path(sub, q.drop_first()) == (has_path(e.children, q.drop_first())
                        || lit_has(rest, fin, q.drop_first())));
                }
                if 0 <= i < m.len() && q[0] == name {
                    lemma_has_path_at(m, i, q);
                }
                if !(0 <= i < m.len()) && q[0] == name {
                    lemma_find_sel_absent(m, name, 0);
                    if has_path(m, q) {
                        let k = choose|k: int| 0 <= k < m.len() && sel_has(#[trigger] m[k], q);
                    }
                    if q.len() > 1 {
                        assert(!has_path(e.children, q.drop_first()));
                    }
                }
            }
        }
    }
}


/// Whether a listed entry `cs[k]`, from `i` on, that no exclusion names holds
/// the path `q`.
pub open spec fn listed_has(cs: Seq<Sel>, ex: Seq<Seq<Seq<u8>>>, i: int, q: Seq<Seq<u8>>) -> bool {
    exists|k: int| i <= k < cs.len() && !is_excluded(seq![cs[k].name], ex) && sel_has(#[trigger] cs[k], q)
}

proof fn lemma_merge_listed_paths(m: Seq<Sel>, cs: Seq<Sel>, ex: Seq<Seq<Seq<u8>>>, i: int)
    requires
        in_name_order(m),
        in_name_order(cs),
        0 <= i <= cs.len(),
    ensures
        forall|q: Seq<Seq<u8>>|
            #[trigger] has_path(merge_listed(m, cs, ex, i), q) == (has_path(m, q) || listed_has(
                cs,
                ex,
                i,
                q,
            )),
    decreases cs.len() - i,
{
    if i < cs.len() {
        assert(sel_in_name_order(cs[i]));
        if is_excluded(seq![cs[i].name], ex) {
            lemma_merge_listed_paths(m, cs, ex, i + 1);
            assert(merge_listed(m, cs, ex, i) == merge_listed(m, cs, ex, i + 1));
            assert forall|q: Seq<Seq<u8>>|
                #[trigger] has_path(merge_listed(m, cs, ex, i), q) == (has_path(m, q) || listed_has(
                    cs,
                    ex,
                    i,
                    q,
                )) by {
                assert(has_path(merge_listed(m, cs, ex, i + 1), q) == (has_path(m, q) || listed_has(
                    cs,
                    ex,
                    i + 1,
                    q,
                )));
                if listed_has(cs, ex, i, q) {
                    let k = choose|k: int|
                        i <= k < cs.len() && !is_excluded(seq![cs[k].name], ex) && sel_has(
                            #[trigger] cs[k],
                            q,
                        );
                    assert(k != i);
                    assert(listed_has(cs, ex, i + 1, q));
                }
                if listed_has(cs, ex, i + 1, q) {
                    let k = choose|k: int|
                        i + 1 <= k < cs.len() && !is_excluded(seq![cs[k].name], ex) && sel_has(
                            #[trigger] cs[k],
                            q,
                        );
                    assert(listed_has(cs, ex, i, q));
                }
            }
        } else {
            let m2 = merge_entry(m, cs[i]);
            lemma_merge_entry_paths(m, cs[i]);
            lemma_merge_entry_in_order(m, cs[i]);
            lemma_merge_listed_paths(m2, cs, ex, i + 1);
            assert(merge_listed(m, cs, ex, i) == merge_listed(m2, cs, ex, i + 1));
            assert forall|q: Seq<Seq<u8>>|
                #[trigger] has_path(merge_listed(m, cs, ex, i), q) == (has_path(m, q) || listed_has(
                    cs,
                    ex,
                    i,
                    q,
                )) by {
                assert(has_path(m2, q) == (has_path(m, q) || sel_has(cs[i], q)));
                assert(has_path(merge_listed(m2, cs, ex, i + 1), q) == (has_path(m2, q) || listed_has(
                    cs,
                    ex,
                    i + 1,
                    q,
                )));
                if listed_has(cs, ex, i, q) {
                    let k = choose|k: int|
                        i <= k < cs.len() && !is_excluded(seq![cs[k].name], ex) && sel_has(
                            #[trigger] cs[k],
                            q,
                        );
                    if k > i {
                        assert(listed_has(cs, ex, i + 1, q));
                    }
                }
                if listed_has(cs, ex, i + 1, q) {
                    let k = choose|k: int|
                        i + 1 <= k < cs.len() && !is_excluded(seq![cs[k].name], ex) && sel_has(
                            #[trigger] cs[k],
                            q,
                        );
                    assert(listed_has(cs, ex, i, q));
                }
                if sel_has(cs[i], q) {
                    assert(listed_has(cs, ex, i, q));
                }
            }
        }
    }
}

/// Whether the directive `d` can be applied in the directory `n` at `dir`:
/// it names no invalid path, and every fact it needs is known.
pub open spec fn step_ok(
    n: FsNode,
    dir: Seq<u8>,
    rel: Seq<Seq<u8>>,
    ex: Seq<Seq<Seq<u8>>>,
    depth: Option<usize>,
    global: Seq<Rule>,
    d: Directive,
) -> bool {
    match d {
        Directive::Include(p) => match relative_components(p) {
            None => false,
            Some(c) => is_excluded(c, ex) || probe_literal(n, dir, rel, c) is Ok,
        },
        Directive::Exclude(_) => true,
        Directive::Children => read_children(n, dir, rel) is Ok,
        Directive::Recursive | Directive::RecursiveAll => depth == Some(0usize) || resolve_recursive(
            n,
            dir,
            rel,
            seq![],
            depth,
            ex,
            recursion_rules(d, global),
        ) is Ok,
        Directive::Descend(p, sub) => match relative_components(p) {
            None => false,
            Some(c) => is_excluded(c, ex) || match node_at(n, c) {
                None => false,
                Some(t) => match t.stat {
                    Probe::Known(None) => true,
                    Probe::Known(Some(kind)) => kind != ResolvedEntryKind::Directory || (
                    resolve_entries(
                        t,
                        join_all_path(dir, c),
                        rel + c,
                        sub,
                        depth,
                        global,
                        exclusions_below(ex, c, 0),
                    ) is Ok && probe_literal(n, dir, rel, c) is Ok),
                    _ => false,
                },
            },
        },
    }
}

/// Whether the directive `d`, applied in the directory `n` at `dir`, selects
/// the entry reached through `q`.
pub open spec fn adds(
    n: FsNode,
    dir: Seq<u8>,
    rel: Seq<Seq<u8>>,
    ex: Seq<Seq<Seq<u8>>>,
    depth: Option<usize>,
    global: Seq<Rule>,
    d: Directive,
    q: Seq<Seq<u8>>,
) -> bool {
    match d {
        Directive::Include(p) => match relative_components(p) {
            None => false,
            Some(c) => !is_excluded(c, ex) && probe_literal(n, dir, rel, c) == Ok::<bool, SpecStop>(
                true,
            ) && lit_has(c, None, q),
        },
        Directive::Exclude(_) => false,
        Directive::Children => match read_children(n, dir, rel) {
            Ok(cs) => listed_has(cs, ex, 0, q),
            Err(_) => false,
        },
        Directive::Recursive | Directive::RecursiveAll => depth != Some(0usize) && match resolve_recursive(
            n,
            dir,
            rel,
            seq![],
            depth,
            ex,
            recursion_rules(d, global),
        ) {
            Ok(rs) => has_path(rs, q),
            Err(_) => false,
        },
        Directive::Descend(p, sub) => match relative_components(p) {
            None => false,
            Some(c) => !is_excluded(c, ex) && match node_at(n, c) {
                None => false,
                Some(t) => t.stat == Probe::Known(Some(ResolvedEntryKind::Directory)) && match resolve_entries(
                    t,
                    join_all_path(dir, c),
                    rel + c,
                    sub,
                    depth,
                    global,
                    exclusions_below(ex, c, 0),
                ) {
                    Ok(children) => probe_literal(n, dir, rel, c) == Ok::<bool, SpecStop>(true)
                        && lit_has(c, Some(children), q),
                    Err(_) => false,
                },
            },
        },
    }
}


/// Applies one directive, `ds[i]`, to the selections `m`: when it can be
/// applied, resolution goes on from the selections it gives, which hold what
/// `m` held and what the directive adds; otherwise resolution stops.
proof fn lemma_step_paths(
    n: FsNode,
    dir: Seq<u8>,
    rel: Seq<Seq<u8>>,
    ds: Seq<Directive>,
    ex: Seq<Seq<Seq<u8>>>,
    depth: Option<usize>,
    global: Seq<Rule>,
    i: int,
    m: Seq<Sel>,
) -> (m2: Seq<Sel>)
    requires
        in_name_order(m),
        0 <= i < ds.len(),
    ensures
        step_ok(n, dir, rel, ex, depth, global, ds[i]) ==> {
            &&& resolve_from(n, dir, rel, ds, ex, depth, global, i, m) == resolve_from(
                n,
                dir,
                rel,
                ds,
                ex,
                depth,
                global,
                i + 1,
                m2,
            )
            &&& in_name_order(m2)
            &&& forall|q: Seq<Seq<u8>>|
                #[trigger] has_path(m2, q) == (has_path(m, q) || adds(
                    n,
                    dir,
                    rel,
                    ex,
                    depth,
                    global,
                    ds[i],
                    q,
                ))
        },
        !step_ok(n, dir, rel, ex, depth, global, ds[i]) ==> resolve_from(
            n,
            dir,
            rel,
            ds,
            ex,
            depth,
            global,
            i,
            m,
        ) is Err,
{
    let d = ds[i];
    match d {
        Directive::Include(p) => match relative_components(p) {
            None => m,
            Some(c) => if is_excluded(c, ex) {
                m
            } else {
                match probe_literal(n, dir, rel, c) {
                    Ok(true) => {
                        lemma_place_literal_paths(m, n, dir, rel, c, None);
                        lemma_insert_literal_in_order(m, n, dir, rel, c, None);
                        insert_literal(m, n, dir, rel, c, None)->Ok_0
                    },
                    _ => m,
                }
            },
        },
        Directive::Exclude(_) => m,
        Directive::Children => match read_children(n, dir, rel) {
            Ok(cs) => {
                lemma_read_children_in_order(n, dir, rel);
                lemma_merge_listed_paths(m, cs, ex, 0);
                lemma_merge_listed_in_order(m, cs, ex, 0);
                merge_listed(m, cs, ex, 0)
            },
            Err(_) => m,
        },
        Directive::Recursive | Directive::RecursiveAll => if depth == Some(0usize) {
            m
        } else {
            let git = recursion_rules(d, global);
            match resolve_recursive(n, dir, rel, seq![], depth, ex, git) {
                Ok(rs) => {
                    lemma_resolve_recursive_in_order(n, dir, rel, seq![], depth, ex, git);
                    assert(each_in_name_order(m));
                    assert(each_in_name_order(rs));
                    lemma_merge_children_paths(m, rs);
                    lemma_merge_children_in_order(m, rs);
                    merge_children(m, rs)
                },
                Err(_) => m,
            }
        },
        Directive::Descend(p, sub) => match relative_components(p) {
            None => m,
            Some(c) => if is_excluded(c, ex) {
                m
            } else {
                match node_at(n, c) {
                    None => m,
                    Some(t) => match t.stat {
                        Probe::Known(Some(kind)) => if kind != ResolvedEntryKind::Directory {
                            m
                        } else {
                            let target = join_all_path(dir, c);
                            let below = exclusions_below(ex, c, 0);
                            match resolve_entries(t, target, rel + c, sub, depth, global, below) {
                                Ok(children) => match probe_literal(n, dir, rel, c) {
                                    Ok(true) => {
                                        lemma_resolve_entries_in_order(
                                            t,
                                            target,
                                            rel + c,
                                            sub,
                                            depth,
                                            global,
                                            below,
                                        );
                                        lemma_place_literal_paths(m, n, dir, rel, c, Some(children));
                                        lemma_insert_literal_in_order(m, n, dir, rel, c, Some(children));
                                        insert_literal(m, n, dir, rel, c, Some(children))->Ok_0
                                    },
                                    _ => m,
                                },
                                Err(_) => m,
                            }
                        },
                        _ => m,
                    },
                }
            },
        },
    }
}

/// Whether some directive of `ds[i..]` adds the entry reached through `q`.
pub open spec fn any_adds(
    n: FsNode,
    dir: Seq<u8>,
    rel: Seq<Seq<u8>>,
    ex: Seq<Seq<Seq<u8>>>,
    depth: Option<usize>,
    global: Seq<Rule>,
    ds: Seq<Directive>,
    i: int,
    q: Seq<Seq<u8>>,
) -> bool {
    exists|j: int| i <= j < ds.len() && #[trigger] adds(n, dir, rel, ex, depth, global, ds[j], q)
}

/// Whether every directive of `ds[i..]` can be applied.
pub open spec fn all_ok(
    n: FsNode,
    dir: Seq<u8>,
    rel: Seq<Seq<u8>>,
    ex: Seq<Seq<Seq<u8>>>,
    depth: Option<usize>,
    global: Seq<Rule>,
    ds: Seq<Directive>,
    i: int,
) -> bool {
    forall|j: int| i <= j < ds.len() ==> #[trigger] step_ok(n, dir, rel, ex, depth, global, ds[j])
}

proof fn lemma_resolve_from_paths(
    n: FsNode,
    dir: Seq<u8>,
    rel: Seq<Seq<u8>>,
    ds: Seq<Directive>,
    ex: Seq<Seq<Seq<u8>>>,
    depth: Option<usize>,
    global: Seq<Rule>,
    i: int,
    m: Seq<Sel>,
)
    requires
        in_name_order(m),
        0 <= i <= ds.len(),
    ensures
        (resolve_from(n, dir, rel, ds, ex, depth, global, i, m) is Ok) == all_ok(
            n,
            dir,
            rel,
            ex,
            depth,
            global,
            ds,
            i,
        ),
        resolve_from(n, dir, rel, ds, ex, depth, global, i, m) matches Ok(r) ==> forall|
            q: Seq<Seq<u8>>,
        |
            #[trigger] has_path(r, q) == (has_path(m, q) || any_adds(
                n,
                dir,
                rel,
                ex,
                depth,
                global,
                ds,
                i,
                q,
            )),
    decreases ds.len() - i,
{
    if i < ds.len() {
        let m2 = lemma_step_paths(n, dir, rel, ds, ex, depth, global, i, m);
        if step_ok(n, dir, rel, ex, depth, global, ds[i]) {
            lemma_resolve_from_paths(n, dir, rel, ds, ex, depth, global, i + 1, m2);
            assert(all_ok(n, dir, rel, ex, depth, global, ds, i) == all_ok(
                n,
                dir,
                rel,
                ex,
                depth,
                global,
                ds,
                i + 1,
            )) by {
                if all_ok(n, dir, rel, ex, depth, global, ds, i + 1) {
                    assert forall|j: int| i <= j < ds.len() implies #[trigger] step_ok(
                        n,
                        dir,
                        rel,
                        ex,
                        depth,
                        global,
                        ds[j],
                    ) by {
                        if j > i {
                            assert(step_ok(n, dir, rel, ex, depth, global, ds[j]));
                        }
                    }
                }
            }
            match resolve_from(n, dir, rel, ds, ex, depth, global, i, m) {
                Ok(r) => {
                    assert forall|q: Seq<Seq<u8>>|
                        #[trigger] has_path(r, q) == (has_path(m, q) || any_adds(
                            n,
                            dir,
                            rel,
                            ex,
                            depth,
                            global,
                            ds,
                            i,
                            q,
                        )) by {
                        assert(has_path(r, q) == (has_path(m2, q) || any_adds(
                            n,
                            dir,
                            rel,
                            ex,
                            depth,
                            global,
                            ds,
                            i + 1,
                            q,
                        )));
                        assert(has_path(m2, q) == (has_path(m, q) || adds(
                            n,
                            dir,
                            rel,
                            ex,
                            depth,
                            global,
                            ds[i],
                            q,
                        )));
                        if any_adds(n, dir, rel, ex, depth, global, ds, i, q) {
                            let j = choose|j: int|
                                i <= j < ds.len() && #[trigger] adds(
                                    n,
                                    dir,
                                    rel,
                                    ex,
                                    depth,
                                    global,
                                    ds[j],
                                    q,
                                );
                            if j > i {
                                assert(any_adds(n, dir, rel, ex, depth, global, ds, i + 1, q));
                            }
                        }
                        if any_adds(n, dir, rel, ex, depth, global, ds, i + 1, q) {
                            let j = choose|j: int|
                                i + 1 <= j < ds.len() && #[trigger] adds(
                                    n,
                                    dir,
                                    rel,
                                    ex,
                                    depth,
                                    global,
                                    ds[j],
                                    q,
                                );
                            assert(any_adds(n, dir, rel, ex, depth, global, ds, i, q));
                        }
                        if adds(n, dir, rel, ex, depth, global, ds[i], q) {
                            assert(any_adds(n, dir, rel, ex, depth, global, ds, i, q));
                        }
                    }
                },
                Err(_) => {},
            }
        } else {
            assert(!all_ok(n, dir, rel, ex, depth, global, ds, i));
        }
    }
}


proof fn lemma_single_name(a: Seq<Sel>, x: Seq<u8>, k: int)
    requires
        0 <= k < a.len(),
        a[k].name == x,
    ensures
        has_path(a, seq![x]),
{
    assert(sel_has(a[k], seq![x]));
}

/// Two lists in name order with the same names hold them at the same places.
proof fn lemma_names_same_order(a: Seq<Sel>, b: Seq<Sel>)
    requires
        names_increase(a),
        names_increase(b),
        forall|x: Seq<u8>| #[trigger] has_path(a, seq![x]) == has_path(b, seq![x]),
    ensures
        a.len() == b.len(),
        forall|k: int| 0 <= k < a.len() ==> #[trigger] a[k].name == b[k].name,
    decreases a.len() + b.len(),
{
    if a.len() == 0 || b.len() == 0 {
        if b.len() > 0 {
            lemma_single_name(b, b[0].name, 0);
            assert(has_path(a, seq![b[0].name]));
        }
        if a.len() > 0 {
            lemma_single_name(a, a[0].name, 0);
            assert(has_path(b, seq![a[0].name]));
        }
    } else {
        let x = a[0].name;
        let y = b[0].name;
        lemma_single_name(a, x, 0);
        lemma_single_name(b, y, 0);
        assert(has_path(b, seq![x]));
        assert(has_path(a, seq![y]));
        let j = choose|j: int| 0 <= j < b.len() && sel_has(#[trigger] b[j], seq![x]);
        let i = choose|i: int| 0 <= i < a.len() && sel_has(#[trigger] a[i], seq![y]);
        assert(b[j].name == x);
        assert(a[i].name == y);
        if j > 0 {
            assert(bytes_lt(y, x));
            if i > 0 {
                assert(bytes_lt(x, y));
                lemma_bytes_lt_transitive(x, y, x);
            }
            lemma_bytes_lt_irreflexive(x);
        }
        assert(x == y);
        let a2 = a.drop_first();
        let b2 = b.drop_first();
        assert forall|z: Seq<u8>| #[trigger] has_path(a2, seq![z]) == has_path(b2, seq![z]) by {
            if has_path(a2, seq![z]) {
                let k = choose|k: int| 0 <= k < a2.len() && sel_has(#[trigger] a2[k], seq![z]);
                assert(a2[k] == a[k + 1]);
                lemma_single_name(a, z, k + 1);
                assert(has_path(b, seq![z]));
                let l = choose|l: int| 0 <= l < b.len() && sel_has(#[trigger] b[l], seq![z]);
                assert(b[l].name == z);
                assert(a[k + 1].name == z);
                if l == 0 {
                    assert(bytes_lt(a[0].name, a[k + 1].name));
                    lemma_bytes_lt_irreflexive(z);
                }
                assert(b2[l - 1] == b[l]);
                assert(sel_has(b2[l - 1], seq![z]));
            }
            if has_path(b2, seq![z]) {
                let k = choose|k: int| 0 <= k < b2.len() && sel_has(#[trigger] b2[k], seq![z]);
                assert(b2[k] == b[k + 1]);
                lemma_single_name(b, z, k + 1);
                assert(has_path(a, seq![z]));
                let l = choose|l: int| 0 <= l < a.len() && sel_has(#[trigger] a[l], seq![z]);
                assert(a[l].name == z);
                assert(b[k + 1].name == z);
                if l == 0 {
                    assert(bytes_lt(b[0].name, b[k + 1].name));
                    lemma_bytes_lt_irreflexive(z);
                }
                assert(a2[l - 1] == a[l]);
                assert(sel_has(a2[l - 1], seq![z]));
            }
        }
        assert(names_increase(a2)) by {
            assert forall|i: int, j: int| 0 <= i < j < a2.len() implies bytes_lt(
                #[trigger] a2[i].name,
                #[trigger] a2[j].name,
            ) by {
                assert(a2[i] == a[i + 1] && a2[j] == a[j + 1]);
            }
        }
        assert(names_increase(b2)) by {
            assert forall|i: int, j: int| 0 <= i < j < b2.len() implies bytes_lt(
                #[trigger] b2[i].name,
                #[trigger] b2[j].name,
            ) by {
                assert(b2[i] == b[i + 1] && b2[j] == b[j + 1]);
            }
        }
        lemma_names_same_order(a2, b2);
        assert forall|k: int| 0 <= k < a.len() implies #[trigger] a[k].name == b[k].name by {
            if k > 0 {
                assert(a2[k - 1] == a[k] && b2[k - 1] == b[k]);
            }
        }
    }
}

/// A selection that agrees with a directory and keeps name order is fixed by
/// the paths it holds.
proof fn lemma_same_paths_same(n: FsNode, dir: Seq<u8>, a: Seq<Sel>, b: Seq<Sel>)
    requires
        in_name_order(a),
        in_name_order(b),
        agrees(n, dir, a),
        agrees(n, dir, b),
        forall|q: Seq<Seq<u8>>| #[trigger] has_path(a, q) == has_path(b, q),
    ensures
        a == b,
    decreases a,
{
    assert forall|x: Seq<u8>| #[trigger] has_path(a, seq![x]) == has_path(b, seq![x]) by {
        assert(has_path(a, seq![x]) == has_path(b, seq![x]));
    }
    lemma_names_same_order(a, b);
    assert forall|k: int| 0 <= k < a.len() implies a[k] == b[k] by {
        let x = a[k];
        let y = b[k];
        assert(sel_agrees(n, dir, x));
        assert(sel_agrees(n, dir, y));
        assert(sel_in_name_order(x));
        assert(sel_in_name_order(y));
        assert forall|q2: Seq<Seq<u8>>| #[trigger] has_path(x.children, q2) == has_path(
            y.children,
            q2,
        ) by {
            if q2.len() > 0 {
                let q = seq![x.name] + q2;
                assert(q.drop_first() =~= q2);
                assert(q[0] == x.name);
                lemma_has_path_at(a, k, q);
                lemma_has_path_at(b, k, q);
                assert(has_path(a, q) == has_path(b, q));
            }
        }
        let ci = child_index(n, x.name);
        if x.children.len() > 0 && y.children.len() > 0 {
            assert(decreases_to!(a => a[k]));
            assert(decreases_to!(a => a[k].children));
            lemma_same_paths_same(n.children@[ci].node, x.path, x.children, y.children);
        } else if y.children.len() > 0 {
            lemma_single_name(y.children, y.children[0].name, 0);
            assert(has_path(x.children, seq![y.children[0].name]));
        } else if x.children.len() > 0 {
            lemma_single_name(x.children, x.children[0].name, 0);
            assert(has_path(y.children, seq![x.children[0].name]));
        } else {
            assert(x.children =~= y.children);
        }
        assert(x.children == y.children);
    }
    assert(a =~= b);
}

/// Whether the directive `d` excludes `x`.
pub open spec fn excl_covers(d: Directive, x: Seq<Seq<u8>>) -> bool {
    d matches Directive::Exclude(p) && relative_components(p) matches Some(c)
        && crate::paths::is_prefix(c, x)
}

/// Whether the directive `d` is an exclusion of an invalid path.
pub open spec fn invalid_exclusion(d: Directive) -> bool {
    d matches Directive::Exclude(p) && relative_components(p) is None
}

proof fn lemma_exclusions_from_char(ds: Seq<Directive>, i: int, acc: Seq<Seq<Seq<u8>>>)
    requires
        0 <= i <= ds.len(),
    ensures
        (exclusions_from(ds, i, acc) is Ok) == (forall|j: int|
            i <= j < ds.len() ==> !invalid_exclusion(#[trigger] ds[j])),
        exclusions_from(ds, i, acc) matches Ok(y) ==> forall|x: Seq<Seq<u8>>|
            #[trigger] is_excluded(x, y) == (is_excluded(x, acc) || exists|j: int|
                i <= j < ds.len() && excl_covers(#[trigger] ds[j], x)),
    decreases ds.len() - i,
{
    if i < ds.len() {
        let acc2 = match ds[i] {
            Directive::Exclude(p) => match relative_components(p) {
                Some(c) => acc.push(c),
                None => acc,
            },
            _ => acc,
        };
        lemma_exclusions_from_char(ds, i + 1, acc2);
        if !invalid_exclusion(ds[i]) {
            assert(exclusions_from(ds, i, acc) == exclusions_from(ds, i + 1, acc2));
            match exclusions_from(ds, i, acc) {
                Ok(y) => {
                    assert forall|x: Seq<Seq<u8>>|
                        #[trigger] is_excluded(x, y) == (is_excluded(x, acc) || exists|j: int|
                            i <= j < ds.len() && excl_covers(#[trigger] ds[j], x)) by {
                        if ds[i] is Exclude {
                            let c = relative_components(ds[i]->Exclude_0)->0;
                            lemma_excluded_push(acc, c, x);
                        }
                        assert(is_excluded(x, acc2) == (is_excluded(x, acc) || excl_covers(ds[i], x)));
                        if exists|j: int| i <= j < ds.len() && excl_covers(#[trigger] ds[j], x) {
                            let j = choose|j: int| i <= j < ds.len() && excl_covers(#[trigger] ds[j], x);
                            if j > i {
                                assert(exists|j2: int|
                                    i + 1 <= j2 < ds.len() && excl_covers(#[trigger] ds[j2], x));
                            }
                        }
                        if exists|j: int| i + 1 <= j < ds.len() && excl_covers(#[trigger] ds[j], x) {
                            let j = choose|j: int|
                                i + 1 <= j < ds.len() && excl_covers(#[trigger] ds[j], x);
                            assert(exists|j2: int| i <= j2 < ds.len() && excl_covers(#[trigger] ds[j2], x));
                        }
                        if excl_covers(ds[i], x) {
                            assert(exists|j2: int| i <= j2 < ds.len() && excl_covers(#[trigger] ds[j2], x));
                        }
                    }
                },
                Err(_) => {},
            }
            if forall|j: int| i + 1 <= j < ds.len() ==> !invalid_exclusion(#[trigger] ds[j]) {
                assert forall|j: int| i <= j < ds.len() implies !invalid_exclusion(#[trigger] ds[j]) by {
                    if j > i {
                        assert(!invalid_exclusion(ds[j]));
                    }
                }
            }
        }
    } else {
        assert forall|x: Seq<Seq<u8>>| #[trigger] is_excluded(x, acc) == is_excluded(x, acc) by {}
    }
}

/// Neither the order of the directives of a manifest nor their repetition
/// changes its resolution: two lists that hold the same directives (one a
/// permutation of the other, or the other repeated, or any mix) resolve to
/// the same tree, whenever one of them resolves.
pub proof fn law_directive_order_and_repetition_do_not_matter(
    ds1: Seq<Directive>,
    ds2: Seq<Directive>,
    root: Seq<u8>,
    depth: Option<usize>,
    global: Seq<Rule>,
    fs: FsNode,
)
    requires
        forall|d: Directive| #[trigger] ds1.contains(d) == ds2.contains(d),
    ensures
        resolution_spec(ds1, root, depth, global, fs) is Ok ==> resolution_spec(
            ds2,
            root,
            depth,
            global,
            fs,
        ) == resolution_spec(ds1, root, depth, global, fs),
{
    if resolution_spec(ds1, root, depth, global, fs) is Ok {
        let none = Seq::<Seq<Seq<u8>>>::empty();
        let empty = Seq::<Sel>::empty();
        lemma_exclusions_from_char(ds1, 0, none);
        lemma_exclusions_from_char(ds2, 0, none);
        let y1 = exclusions_from(ds1, 0, none)->Ok_0;
        assert forall|j: int| 0 <= j < ds2.len() implies !invalid_exclusion(#[trigger] ds2[j]) by {
            assert(ds2.contains(ds2[j]));
            assert(ds1.contains(ds2[j]));
            let k = choose|k: int| 0 <= k < ds1.len() && ds1[k] == ds2[j];
            assert(!invalid_exclusion(ds1[k]));
        }
        let y2 = exclusions_from(ds2, 0, none)->Ok_0;
        assert(same_exclusions(y2, y1)) by {
            assert forall|x: Seq<Seq<u8>>| is_excluded(x, y2) == is_excluded(x, y1) by {
                assert(!is_excluded(x, none));
                if exists|j: int| 0 <= j < ds1.len() && excl_covers(#[trigger] ds1[j], x) {
                    let j = choose|j: int| 0 <= j < ds1.len() && excl_covers(#[trigger] ds1[j], x);
                    assert(ds1.contains(ds1[j]));
                    assert(ds2.contains(ds1[j]));
                    let k = choose|k: int| 0 <= k < ds2.len() && ds2[k] == ds1[j];
                    assert(excl_covers(ds2[k], x));
                }
                if exists|j: int| 0 <= j < ds2.len() && excl_covers(#[trigger] ds2[j], x) {
                    let j = choose|j: int| 0 <= j < ds2.len() && excl_covers(#[trigger] ds2[j], x);
                    assert(ds2.contains(ds2[j]));
                    assert(ds1.contains(ds2[j]));
                    let k = choose|k: int| 0 <= k < ds1.len() && ds1[k] == ds2[j];
                    assert(excl_covers(ds1[k], x));
                }
            }
        }
        lemma_resolve_from_same_ex(fs, root, seq![], ds2, y2, y1, depth, global, 0, empty);
        assert(in_name_order(empty));
        assert(agrees(fs, root, empty));
        lemma_resolve_from_paths(fs, root, seq![], ds1, y1, depth, global, 0, empty);
        lemma_resolve_from_paths(fs, root, seq![], ds2, y1, depth, global, 0, empty);
        assert(all_ok(fs, root, seq![], y1, depth, global, ds2, 0)) by {
            assert forall|j: int| 0 <= j < ds2.len() implies #[trigger] step_ok(
                fs,
                root,
                seq![],
                y1,
                depth,
                global,
                ds2[j],
            ) by {
                assert(ds2.contains(ds2[j]));
                assert(ds1.contains(ds2[j]));
                let k = choose|k: int| 0 <= k < ds1.len() && ds1[k] == ds2[j];
                assert(step_ok(fs, root, seq![], y1, depth, global, ds1[k]));
            }
        }
        let r1 = resolve_from(fs, root, seq![], ds1, y1, depth, global, 0, empty)->Ok_0;
        let r2 = resolve_from(fs, root, seq![], ds2, y1, depth, global, 0, empty)->Ok_0;
        lemma_resolve_from_in_order(fs, root, seq![], ds1, y1, depth, global, 0, empty);
        lemma_resolve_from_in_order(fs, root, seq![], ds2, y1, depth, global, 0, empty);
        lemma_resolve_from_agrees(fs, root, seq![], ds1, y1, depth, global, 0, empty);
        lemma_resolve_from_agrees(fs, root, seq![], ds2, y1, depth, global, 0, empty);
        assert forall|q: Seq<Seq<u8>>| #[trigger] has_path(r1, q) == has_path(r2, q) by {
            assert(!has_path(empty, q));
            assert(has_path(r1, q) == any_adds(fs, root, seq![], y1, depth, global, ds1, 0, q));
            assert(has_path(r2, q) == any_adds(fs, root, seq![], y1, depth, global, ds2, 0, q));
            if any_adds(fs, root, seq![], y1, depth, global, ds1, 0, q) {
                let j = choose|j: int|
                    0 <= j < ds1.len() && #[trigger] adds(fs, root, seq![], y1, depth, global, ds1[j], q);
                assert(ds1.contains(ds1[j]));
                assert(ds2.contains(ds1[j]));
                let k = choose|k: int| 0 <= k < ds2.len() && ds2[k] == ds1[j];
                assert(adds(fs, root, seq![], y1, depth, global, ds2[k], q));
            }
            if any_adds(fs, root, seq![], y1, depth, global, ds2, 0, q) {
                let j = choose|j: int|
                    0 <= j < ds2.len() && #[trigger] adds(fs, root, seq![], y1, depth, global, ds2[j], q);
                assert(ds2.contains(ds2[j]));
                assert(ds1.contains(ds2[j]));
                let k = choose|k: int| 0 <= k < ds1.len() && ds1[k] == ds2[j];
                assert(adds(fs, root, seq![], y1, depth, global, ds1[k], q));
            }
        }
        lemma_same_paths_same(fs, root, r1, r2);
    }
}

} // verus!
