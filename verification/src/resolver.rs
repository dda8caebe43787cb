//! Resolution of a manifest against a snapshot of the filesystem.
//!
//! The resolver decides, from what is known about the filesystem, which
//! entries a manifest selects. When it needs a fact that the snapshot does not
//! hold yet, it stops and names that fact; the caller reads it from the
//! filesystem, records it in the snapshot, and resolves again.

use vstd::prelude::*;
use vstd::string::*;
use crate::manifest::{directives_of, utf8_of, Directive, Entry, Manifest};
use crate::paths::{
    bytes_lt, comps_list, is_excluded, is_prefix, join_path, relative_components, utf8_seq,
};
use crate::fs::{child_index, node_at, FsNode, Probe, ResolvedEntryKind};
use crate::ignore::{ignored_by, parse_rules, rules_of, IgnoreRule, Rule};

verus! {

/// The result of resolving a manifest against a directory.
#[derive(Debug, PartialEq, Eq)]
pub struct ResolvedTree {
    /// The directory against which the manifest was resolved.
    pub root: String,
    /// The selected filesystem entries below `root`.
    pub entries: Vec<ResolvedEntry>,
}

/// A selected filesystem entry and any selected children below it.
#[derive(Debug, PartialEq, Eq)]
pub struct ResolvedEntry {
    /// The full path to this entry.
    pub path: String,
    /// The kind of filesystem entry that was found.
    pub kind: ResolvedEntryKind,
    /// Selected children. This is empty for files and unexpanded directories.
    pub children: Vec<ResolvedEntry>,
}

/// An error encountered while resolving a manifest against the filesystem.
#[derive(Debug)]
pub enum ResolveError {
    InvalidManifestPath { path: String },
    ReadDirectory { path: String, source: String },
    ReadMetadata { path: String, source: String },
}

/// The text of the error for a manifest path that, as `{:?}` writes it, is
/// `quoted`.
pub fn invalid_path_text(quoted: &str) -> (r: String)
    ensures
        r@ == "manifest path "@ + quoted@ + " must be relative and must not contain `..`"@,
{
    crate::text::concat_text("manifest path ", quoted, " must be relative and must not contain `..`")
}

impl ResolveError {
    /// What the error says.
    pub fn message(&self) -> (r: String)
        ensures
            r@ == match *self {
                ResolveError::InvalidManifestPath { path } => "manifest path "@
                    + crate::text::debug_text(path@) + " must be relative and must not contain `..`"@,
                ResolveError::ReadDirectory { path, source } => "could not read directory "@
                    + path@ + ": "@ + source@,
                ResolveError::ReadMetadata { path, source } => "could not inspect "@ + path@
                    + ": "@ + source@,
            },
    {
        match self {
            ResolveError::InvalidManifestPath { path } => {
                let quoted = crate::text::debug_quoted(path);
                invalid_path_text(quoted.as_str())
            },
            ResolveError::ReadDirectory { path, source } => {
                let mut r = crate::text::concat_text("could not read directory ", path.as_str(), ": ");
                r.append(source.as_str());
                r
            },
            ResolveError::ReadMetadata { path, source } => {
                let mut r = crate::text::concat_text("could not inspect ", path.as_str(), ": ");
                r.append(source.as_str());
                r
            },
        }
    }
}

/// A fact about the filesystem that resolution needs and the snapshot lacks,
/// named by the components of its path below the resolution root.
#[derive(Debug)]
pub enum FsRequest {
    /// The kind of the entry at the path (without following a final link).
    Stat(Vec<String>),
    /// The names in the directory at the path.
    List(Vec<String>),
    /// The text of the `.gitignore` file in the directory at the path.
    IgnoreFile(Vec<String>),
}

/// The outcome of one resolution attempt.
#[derive(Debug)]
pub enum Resolution {
    Resolved(ResolvedTree),
    Failed(ResolveError),
    NeedsInput(FsRequest),
}

/// An entry selected while resolving, with its name inside its directory.
pub struct Selected {
    pub name: String,
    pub path: String,
    pub kind: ResolvedEntryKind,
    pub children: Vec<Selected>,
}

/// Why resolution stopped early.
pub enum Stop {
    Fail(ResolveError),
    Need(FsRequest),
}

/// The mathematical value of a selected entry.
pub struct Sel {
    pub name: Seq<u8>,
    pub path: Seq<u8>,
    pub kind: ResolvedEntryKind,
    pub children: Seq<Sel>,
}

/// The mathematical value of a resolved entry.
pub struct Res {
    pub path: Seq<u8>,
    pub kind: ResolvedEntryKind,
    pub children: Seq<Res>,
}

pub enum SpecError {
    InvalidManifestPath(Seq<u8>),
    ReadDirectory(Seq<u8>, Seq<char>),
    ReadMetadata(Seq<u8>, Seq<char>),
}

pub enum SpecRequest {
    Stat(Seq<Seq<u8>>),
    List(Seq<Seq<u8>>),
    IgnoreFile(Seq<Seq<u8>>),
}

pub enum SpecStop {
    Fail(SpecError),
    Need(SpecRequest),
}

impl Selected {
    pub open spec fn sel(self) -> Sel
        decreases self,
    {
        Sel {
            name: utf8_of(self.name),
            path: utf8_of(self.path),
            kind: self.kind,
            children: Seq::new(
                self.children.len() as nat,
                |i: int|
                    if 0 <= i < self.children.len() {
                        self.children@[i].sel()
                    } else {
                        Sel { name: seq![], path: seq![], kind: ResolvedEntryKind::Other, children: seq![] }
                    },
            ),
        }
    }
}

impl View for Selected {
    type V = Sel;

    open spec fn view(&self) -> Sel {
        self.sel()
    }
}

pub open spec fn sels_of(v: Seq<Selected>) -> Seq<Sel> {
    Seq::new(v.len(), |i: int| v[i]@)
}

impl ResolvedEntry {
    pub open spec fn res(self) -> Res
        decreases self,
    {
        Res {
            path: utf8_of(self.path),
            kind: self.kind,
            children: Seq::new(
                self.children.len() as nat,
                |i: int|
                    if 0 <= i < self.children.len() {
                        self.children@[i].res()
                    } else {
                        Res { path: seq![], kind: ResolvedEntryKind::Other, children: seq![] }
                    },
            ),
        }
    }
}

impl View for ResolvedEntry {
    type V = Res;

    open spec fn view(&self) -> Res {
        self.res()
    }
}

pub open spec fn res_of(v: Seq<ResolvedEntry>) -> Seq<Res> {
    Seq::new(v.len(), |i: int| v[i]@)
}

impl View for ResolveError {
    type V = SpecError;

    open spec fn view(&self) -> SpecError {
        match *self {
            ResolveError::InvalidManifestPath { path } => SpecError::InvalidManifestPath(utf8_of(path)),
            ResolveError::ReadDirectory { path, source } => SpecError::ReadDirectory(utf8_of(path), source@),
            ResolveError::ReadMetadata { path, source } => SpecError::ReadMetadata(utf8_of(path), source@),
        }
    }
}

impl View for FsRequest {
    type V = SpecRequest;

    open spec fn view(&self) -> SpecRequest {
        match *self {
            FsRequest::Stat(p) => SpecRequest::Stat(utf8_seq(p@)),
            FsRequest::List(p) => SpecRequest::List(utf8_seq(p@)),
            FsRequest::IgnoreFile(p) => SpecRequest::IgnoreFile(utf8_seq(p@)),
        }
    }
}

impl View for Stop {
    type V = SpecStop;

    open spec fn view(&self) -> SpecStop {
        match *self {
            Stop::Fail(e) => SpecStop::Fail(e@),
            Stop::Need(r) => SpecStop::Need(r@),
        }
    }
}

/// The message recorded when an entry listed in a directory is gone when it
/// is inspected.
pub open spec fn disappeared_message() -> Seq<char> {
    "entry disappeared while resolving"@
}

// ---------------------------------------------------------------------------
// Selections keyed by name, in byte order of the names.

pub open spec fn find_sel_from(m: Seq<Sel>, name: Seq<u8>, i: int) -> int
    decreases m.len() - i,
{
    if i < 0 || i >= m.len() {
        -1
    } else if m[i].name == name {
        i
    } else {
        find_sel_from(m, name, i + 1)
    }
}

/// The index of the selection with the given name, or -1.
pub open spec fn find_sel(m: Seq<Sel>, name: Seq<u8>) -> int {
    find_sel_from(m, name, 0)
}

pub open spec fn insert_pos_from(m: Seq<Sel>, name: Seq<u8>, i: int) -> int
    decreases m.len() - i,
{
    if i < 0 || i >= m.len() {
        m.len() as int
    } else if bytes_lt(name, m[i].name) {
        i
    } else {
        insert_pos_from(m, name, i + 1)
    }
}

/// Where a new name goes: before the first selection whose name is greater.
pub open spec fn insert_pos(m: Seq<Sel>, name: Seq<u8>) -> int {
    insert_pos_from(m, name, 0)
}

/// Stores `e` under its name, replacing a selection of the same name.
pub open spec fn put(m: Seq<Sel>, e: Sel) -> Seq<Sel> {
    let i = find_sel(m, e.name);
    if 0 <= i < m.len() {
        m.update(i, e)
    } else {
        m.insert(insert_pos(m, e.name), e)
    }
}

/// Adds `e` under its name; when the name is taken, merges the children.
pub open spec fn merge_entry(m: Seq<Sel>, e: Sel) -> Seq<Sel>
    decreases e, 2int,
{
    let i = find_sel(m, e.name);
    if 0 <= i < m.len() {
        m.update(
            i,
            Sel {
                name: m[i].name,
                path: m[i].path,
                kind: m[i].kind,
                children: merge_children(m[i].children, e.children),
            },
        )
    } else {
        m.insert(insert_pos(m, e.name), e)
    }
}

/// The entries `s` stored one after another by name, a later one replacing
/// an earlier one of the same name: the entries in name order.
pub open spec fn rebuild(s: Seq<Sel>) -> Seq<Sel>
    decreases s.len(),
{
    if s.len() == 0 {
        seq![]
    } else {
        put(rebuild(s.drop_last()), s.last())
    }
}

/// Merges the entries `add`, in order, into `existing`.
pub open spec fn merge_adds(existing: Seq<Sel>, add: Seq<Sel>) -> Seq<Sel>
    decreases add, 0int,
{
    if add.len() == 0 {
        existing
    } else {
        merge_adds(merge_entry(existing, add[0]), add.subrange(1, add.len() as int))
    }
}

/// Merges `add` into `existing`, which is first put in name order.
pub open spec fn merge_children(existing: Seq<Sel>, add: Seq<Sel>) -> Seq<Sel>
    decreases add, 1int,
{
    merge_adds(rebuild(existing), add)
}

// ---------------------------------------------------------------------------
// Reading a directory.

/// The kind of the child of `n` with the given name, as far as known.
pub open spec fn child_stat(n: FsNode, name: Seq<u8>) -> Probe<Option<ResolvedEntryKind>> {
    let i = child_index(n, name);
    if 0 <= i < n.children.len() {
        n.children@[i].node.stat
    } else {
        Probe::Unknown
    }
}

/// The entries named by `names[i..]`, added to `acc`.
pub open spec fn read_names(
    n: FsNode,
    dir: Seq<u8>,
    rel: Seq<Seq<u8>>,
    names: Seq<String>,
    i: int,
    acc: Seq<Sel>,
) -> Result<Seq<Sel>, SpecStop>
    decreases names.len() - i,
{
    if i < 0 || i >= names.len() {
        Ok(acc)
    } else {
        let name = utf8_of(names[i]);
        let path = join_path(dir, name);
        match child_stat(n, name) {
            Probe::Unknown => Err(SpecStop::Need(SpecRequest::Stat(rel.push(name)))),
            Probe::Failed(msg) => Err(SpecStop::Fail(SpecError::ReadMetadata(path, msg@))),
            Probe::Known(None) => Err(
                SpecStop::Fail(SpecError::ReadMetadata(path, disappeared_message())),
            ),
            Probe::Known(Some(kind)) => read_names(
                n,
                dir,
                rel,
                names,
                i + 1,
                put(acc, Sel { name, path, kind, children: seq![] }),
            ),
        }
    }
}

/// The entries of the directory `n` at `dir`, in name order.
pub open spec fn read_children(n: FsNode, dir: Seq<u8>, rel: Seq<Seq<u8>>) -> Result<
    Seq<Sel>,
    SpecStop,
> {
    match n.listing {
        Probe::Unknown => Err(SpecStop::Need(SpecRequest::List(rel))),
        Probe::Failed(msg) => Err(SpecStop::Fail(SpecError::ReadDirectory(dir, msg@))),
        Probe::Known(names) => read_names(n, dir, rel, names@, 0, seq![]),
    }
}

// ---------------------------------------------------------------------------
// Recursive selection.

/// Whether an entry of kind `kind` is expanded when `budget` levels remain.
pub open spec fn expands(kind: ResolvedEntryKind, budget: Option<usize>) -> bool {
    kind == ResolvedEntryKind::Directory && (budget is None || budget->0 > 1)
}

/// The budget of the level below.
pub open spec fn lower(budget: Option<usize>) -> Option<usize> {
    match budget {
        Some(b) => Some((b - 1) as usize),
        None => None,
    }
}

/// The name of the directory in which git keeps a repository.
pub open spec fn git_dir_name() -> Seq<u8> {
    seq![0x2Eu8, 0x67u8, 0x69u8, 0x74u8]
}

/// The name of a directory's git ignore file.
pub open spec fn ignore_file_name() -> Seq<u8> {
    seq![0x2Eu8, 0x67u8, 0x69u8, 0x74u8, 0x69u8, 0x67u8, 0x6Eu8, 0x6Fu8, 0x72u8, 0x65u8]
}

/// The ignore rules in force inside the directory `n` at `dir` (`local` below
/// where `**` started): those of the enclosing directories, `git`, followed by
/// those of its own `.gitignore`. `None` when git's rules do not apply.
pub open spec fn rules_in(
    n: FsNode,
    dir: Seq<u8>,
    rel: Seq<Seq<u8>>,
    local: Seq<Seq<u8>>,
    git: Option<Seq<Rule>>,
) -> Result<Option<Seq<Rule>>, SpecStop> {
    match git {
        None => Ok(None),
        Some(rules) => match n.ignore_file {
            Probe::Unknown => Err(SpecStop::Need(SpecRequest::IgnoreFile(rel))),
            Probe::Failed(msg) => Err(
                SpecStop::Fail(SpecError::ReadMetadata(join_path(dir, ignore_file_name()), msg@)),
            ),
            Probe::Known(None) => Ok(Some(rules)),
            Probe::Known(Some(text)) => Ok(Some(rules + parse_rules(utf8_of(text), local))),
        },
    }
}

/// Whether git's rules, where they apply, leave out the entry at `loc` (below
/// where `**` started): the repository directory and what the rules ignore.
pub open spec fn skipped_by_git(git: Option<Seq<Rule>>, loc: Seq<Seq<u8>>, kind: ResolvedEntryKind) -> bool {
    match git {
        None => false,
        Some(rules) => loc.last() == git_dir_name() || ignored_by(
            rules,
            loc,
            kind == ResolvedEntryKind::Directory,
        ),
    }
}

/// The git ignore rules that a recursive directive honours: `**` those of
/// `global`, `***` none.
pub open spec fn recursion_rules(d: Directive, global: Seq<Rule>) -> Option<Seq<Rule>> {
    if d is Recursive {
        Some(global)
    } else {
        None
    }
}

/// Everything below the directory `n` at `dir`, down to `budget` levels
/// (`None`: all levels), leaving out what `exclusions` match and, where `git`
/// holds the rules of the enclosing directories, what git ignores. `local` is
/// the path of `n` relative to the directory that holds the directive.
pub open spec fn resolve_recursive(
    n: FsNode,
    dir: Seq<u8>,
    rel: Seq<Seq<u8>>,
    local: Seq<Seq<u8>>,
    budget: Option<usize>,
    exclusions: Seq<Seq<Seq<u8>>>,
    git: Option<Seq<Rule>>,
) -> Result<Seq<Sel>, SpecStop>
    decreases n, 1int, 0int,
{
    match read_children(n, dir, rel) {
        Err(e) => Err(e),
        Ok(cs) => match rules_in(n, dir, rel, local, git) {
            Err(e) => Err(e),
            Ok(g) => recurse_children(n, rel, local, budget, exclusions, g, cs, 0, seq![]),
        },
    }
}

/// Fills in the children `cs[i..]` of the directory `n`, added to `acc`.
pub open spec fn recurse_children(
    n: FsNode,
    rel: Seq<Seq<u8>>,
    local: Seq<Seq<u8>>,
    budget: Option<usize>,
    exclusions: Seq<Seq<Seq<u8>>>,
    git: Option<Seq<Rule>>,
    cs: Seq<Sel>,
    i: int,
    acc: Seq<Sel>,
) -> Result<Seq<Sel>, SpecStop>
    decreases n, 0int, cs.len() - i,
{
    if i < 0 || i >= cs.len() {
        Ok(acc)
    } else {
        let c = cs[i];
        let loc = local.push(c.name);
        if is_excluded(loc, exclusions) || skipped_by_git(git, loc, c.kind) {
            recurse_children(n, rel, local, budget, exclusions, git, cs, i + 1, acc)
        } else if expands(c.kind, budget) {
            let ci = child_index(n, c.name);
            if 0 <= ci < n.children.len() {
                match resolve_recursive(
                    n.children@[ci].node,
                    c.path,
                    rel.push(c.name),
                    loc,
                    lower(budget),
                    exclusions,
                    git,
                ) {
                    Err(e) => Err(e),
                    Ok(sub) => recurse_children(
                        n,
                        rel,
                        local,
                        budget,
                        exclusions,
                        git,
                        cs,
                        i + 1,
                        put(acc, Sel { name: c.name, path: c.path, kind: c.kind, children: sub }),
                    ),
                }
            } else {
                Err(SpecStop::Need(SpecRequest::Stat(rel.push(c.name))))
            }
        } else {
            recurse_children(n, rel, local, budget, exclusions, git, cs, i + 1, put(acc, c))
        }
    }
}

// ---------------------------------------------------------------------------
// Literal paths.

/// Selects the path `comps` below the directory `n` at `dir`, creating the
/// selections of its ancestors, once the whole path is known to exist. When
/// it does, `fin` (the children resolved for a block) is merged into its
/// selection.
pub open spec fn place_literal(
    m: Seq<Sel>,
    n: FsNode,
    dir: Seq<u8>,
    rel: Seq<Seq<u8>>,
    comps: Seq<Seq<u8>>,
    fin: Option<Seq<Sel>>,
) -> Result<Seq<Sel>, SpecStop>
    decreases comps.len(),
{
    if comps.len() == 0 {
        Ok(m)
    } else {
        let name = comps[0];
        let path = join_path(dir, name);
        let rest = comps.drop_first();
        match child_stat(n, name) {
            Probe::Unknown => Err(SpecStop::Need(SpecRequest::Stat(rel.push(name)))),
            Probe::Failed(msg) => Err(SpecStop::Fail(SpecError::ReadMetadata(path, msg@))),
            Probe::Known(None) => Ok(m),
            Probe::Known(Some(kind)) => {
                let i = find_sel(m, name);
                let e = if 0 <= i < m.len() {
                    m[i]
                } else {
                    Sel { name, path, kind, children: seq![] }
                };
                if rest.len() == 0 {
                    match fin {
                        Some(cs) => Ok(
                            put(
                                m,
                                Sel {
                                    name: e.name,
                                    path: e.path,
                                    kind: e.kind,
                                    children: merge_children(e.children, cs),
                                },
                            ),
                        ),
                        None => Ok(put(m, e)),
                    }
                } else if kind != ResolvedEntryKind::Directory {
                    Ok(put(m, e))
                } else {
                    let ci = child_index(n, name);
                    match place_literal(
                        e.children,
                        n.children@[ci].node,
                        path,
                        rel.push(name),
                        rest,
                        fin,
                    ) {
                        Err(x) => Err(x),
                        Ok(sub) => Ok(
                            put(m, Sel { name: e.name, path: e.path, kind: e.kind, children: sub }),
                        ),
                    }
                }
            },
        }
    }
}

/// Whether the path `comps` exists below the directory `n` at `dir`: each
/// component but the last must be a directory. Stops for an unknown fact
/// and fails where one could not be learned.
pub open spec fn probe_literal(
    n: FsNode,
    dir: Seq<u8>,
    rel: Seq<Seq<u8>>,
    comps: Seq<Seq<u8>>,
) -> Result<bool, SpecStop>
    decreases comps.len(),
{
    if comps.len() == 0 {
        Ok(true)
    } else {
        let name = comps[0];
        let path = join_path(dir, name);
        let rest = comps.drop_first();
        match child_stat(n, name) {
            Probe::Unknown => Err(SpecStop::Need(SpecRequest::Stat(rel.push(name)))),
            Probe::Failed(msg) => Err(SpecStop::Fail(SpecError::ReadMetadata(path, msg@))),
            Probe::Known(None) => Ok(false),
            Probe::Known(Some(kind)) => if rest.len() == 0 {
                Ok(true)
            } else if kind != ResolvedEntryKind::Directory {
                Ok(false)
            } else {
                probe_literal(n.children@[child_index(n, name)].node, path, rel.push(name), rest)
            },
        }
    }
}

/// Selects the path `comps` when it exists; a missing path selects nothing.
pub open spec fn insert_literal(
    m: Seq<Sel>,
    n: FsNode,
    dir: Seq<u8>,
    rel: Seq<Seq<u8>>,
    comps: Seq<Seq<u8>>,
    fin: Option<Seq<Sel>>,
) -> Result<Seq<Sel>, SpecStop> {
    match probe_literal(n, dir, rel, comps) {
        Err(e) => Err(e),
        Ok(false) => Ok(m),
        Ok(true) => place_literal(m, n, dir, rel, comps, fin),
    }
}

// ---------------------------------------------------------------------------
// Directives.

/// The components of the exclusions among `ds[i..]`, after `acc`; the first
/// exclusion path that is not a valid relative path is an error.
pub open spec fn exclusions_from(ds: Seq<Directive>, i: int, acc: Seq<Seq<Seq<u8>>>) -> Result<
    Seq<Seq<Seq<u8>>>,
    Seq<u8>,
>
    decreases ds.len() - i,
{
    if i < 0 || i >= ds.len() {
        Ok(acc)
    } else {
        match ds[i] {
            Directive::Exclude(p) => match relative_components(p) {
                Some(c) => exclusions_from(ds, i + 1, acc.push(c)),
                None => Err(p),
            },
            _ => exclusions_from(ds, i + 1, acc),
        }
    }
}

/// Merges the listed entries `cs[i..]` that no exclusion matches.
pub open spec fn merge_listed(
    m: Seq<Sel>,
    cs: Seq<Sel>,
    exclusions: Seq<Seq<Seq<u8>>>,
    i: int,
) -> Seq<Sel>
    decreases cs.len() - i,
{
    if i < 0 || i >= cs.len() {
        m
    } else if is_excluded(seq![cs[i].name], exclusions) {
        merge_listed(m, cs, exclusions, i + 1)
    } else {
        merge_listed(merge_entry(m, cs[i]), cs, exclusions, i + 1)
    }
}

/// The exclusions among `ex` that reach below the relative path `c`, made
/// relative to it.
pub open spec fn exclusions_below(ex: Seq<Seq<Seq<u8>>>, c: Seq<Seq<u8>>, i: int) -> Seq<
    Seq<Seq<u8>>,
>
    decreases ex.len() - i,
{
    if i < 0 || i >= ex.len() {
        seq![]
    } else {
        (if c.len() < ex[i].len() && is_prefix(c, ex[i]) {
            seq![ex[i].skip(c.len() as int)]
        } else {
            seq![]
        }) + exclusions_below(ex, c, i + 1)
    }
}

/// The selections that the directives `ds` make in the directory `n` at
/// `dir`, whose path below the resolution root is `rel`. The exclusions of
/// the enclosing blocks that reach into this directory, `inherited`, apply
/// together with the block's own.
pub open spec fn resolve_entries(
    n: FsNode,
    dir: Seq<u8>,
    rel: Seq<Seq<u8>>,
    ds: Seq<Directive>,
    depth: Option<usize>,
    global: Seq<Rule>,
    inherited: Seq<Seq<Seq<u8>>>,
) -> Result<Seq<Sel>, SpecStop>
    decreases ds, ds.len() + 1,
{
    match exclusions_from(ds, 0, inherited) {
        Err(p) => Err(SpecStop::Fail(SpecError::InvalidManifestPath(p))),
        Ok(ex) => resolve_from(n, dir, rel, ds, ex, depth, global, 0, seq![]),
    }
}

/// Applies the directives `ds[i..]` to the selections `m`.
pub open spec fn resolve_from(
    n: FsNode,
    dir: Seq<u8>,
    rel: Seq<Seq<u8>>,
    ds: Seq<Directive>,
    ex: Seq<Seq<Seq<u8>>>,
    depth: Option<usize>,
    global: Seq<Rule>,
    i: int,
    m: Seq<Sel>,
) -> Result<Seq<Sel>, SpecStop>
    decreases ds, ds.len() - i,
{
    if i < 0 || i >= ds.len() {
        Ok(m)
    } else {
        match ds[i] {
            Directive::Include(p) => match relative_components(p) {
                None => Err(SpecStop::Fail(SpecError::InvalidManifestPath(p))),
                Some(c) => if is_excluded(c, ex) {
                    resolve_from(n, dir, rel, ds, ex, depth, global, i + 1, m)
                } else {
                    match insert_literal(m, n, dir, rel, c, None) {
                        Err(e) => Err(e),
                        Ok(m2) => resolve_from(n, dir, rel, ds, ex, depth, global, i + 1, m2),
                    }
                },
            },
            Directive::Exclude(_) => resolve_from(n, dir, rel, ds, ex, depth, global, i + 1, m),
            Directive::Children => match read_children(n, dir, rel) {
                Err(e) => Err(e),
                Ok(cs) => resolve_from(n, dir, rel, ds, ex, depth, global, i + 1, merge_listed(m, cs, ex, 0)),
            },
            Directive::Recursive | Directive::RecursiveAll => if depth == Some(0usize) {
                resolve_from(n, dir, rel, ds, ex, depth, global, i + 1, m)
            } else {
                match resolve_recursive(n, dir, rel, seq![], depth, ex, recursion_rules(ds[i], global)) {
                    Err(e) => Err(e),
                    Ok(rs) => resolve_from(n, dir, rel, ds, ex, depth, global, i + 1, merge_children(m, rs)),
                }
            },
            Directive::Descend(p, sub) => match relative_components(p) {
                None => Err(SpecStop::Fail(SpecError::InvalidManifestPath(p))),
                Some(c) => if is_excluded(c, ex) {
                    resolve_from(n, dir, rel, ds, ex, depth, global, i + 1, m)
                } else {
                    let target = join_all_path(dir, c);
                    match node_at(n, c) {
                        None => Err(SpecStop::Need(SpecRequest::Stat(rel + c))),
                        Some(t) => match t.stat {
                            Probe::Unknown => Err(SpecStop::Need(SpecRequest::Stat(rel + c))),
                            Probe::Failed(msg) => Err(
                                SpecStop::Fail(SpecError::ReadMetadata(target, msg@)),
                            ),
                            Probe::Known(None) => resolve_from(n, dir, rel, ds, ex, depth, global, i + 1, m),
                            Probe::Known(Some(kind)) => if kind != ResolvedEntryKind::Directory {
                                resolve_from(n, dir, rel, ds, ex, depth, global, i + 1, m)
                            } else {
                                match resolve_entries(t, target, rel + c, sub, depth, global, exclusions_below(ex, c, 0)) {
                                    Err(e) => Err(e),
                                    Ok(children) => match insert_literal(
                                        m,
                                        n,
                                        dir,
                                        rel,
                                        c,
                                        Some(children),
                                    ) {
                                        Err(e) => Err(e),
                                        Ok(m2) => resolve_from(n, dir, rel, ds, ex, depth, global, i + 1, m2),
                                    },
                                }
                            },
                        },
                    }
                },
            },
        }
    }
}

/// The path reached from `dir` through `comps`.
pub open spec fn join_all_path(dir: Seq<u8>, comps: Seq<Seq<u8>>) -> Seq<u8> {
    crate::paths::join_all(dir, comps)
}

/// A selection without its names.
pub open spec fn strip(s: Sel) -> Res
    decreases s,
{
    Res {
        path: s.path,
        kind: s.kind,
        children: Seq::new(
            s.children.len(),
            |i: int|
                if 0 <= i < s.children.len() {
                    strip(s.children[i])
                } else {
                    Res { path: seq![], kind: ResolvedEntryKind::Other, children: seq![] }
                },
        ),
    }
}

/// The meaning of resolving a manifest against the directory `root`, whose
/// snapshot is `fs`, with `**` and `***` limited to `depth` levels and `**`
/// honouring the global git ignore rules `global` as well as the `.gitignore`
/// files it meets.
pub open spec fn resolution_spec(
    ds: Seq<Directive>,
    root: Seq<u8>,
    depth: Option<usize>,
    global: Seq<Rule>,
    fs: FsNode,
) -> Result<Seq<Res>, SpecStop> {
    match resolve_entries(fs, root, seq![], ds, depth, global, seq![]) {
        Ok(sels) => Ok(Seq::new(sels.len(), |i: int| strip(sels[i]))),
        Err(e) => Err(e),
    }
}

// ---------------------------------------------------------------------------
// Executable selections keyed by name.

pub proof fn lemma_find_sel_from(m: Seq<Sel>, name: Seq<u8>, i: int)
    requires
        0 <= i,
    ensures
        find_sel_from(m, name, i) == -1 || (i <= find_sel_from(m, name, i) < m.len()
            && m[find_sel_from(m, name, i)].name == name),
    decreases m.len() - i,
{
    if i < m.len() && m[i].name != name {
        lemma_find_sel_from(m, name, i + 1);
    }
}

pub proof fn lemma_insert_pos_from(m: Seq<Sel>, name: Seq<u8>, i: int)
    requires
        0 <= i,
    ensures
        i <= insert_pos_from(m, name, i) <= m.len() || (i > m.len() && insert_pos_from(m, name, i)
            == m.len()),
    decreases m.len() - i,
{
    if i < m.len() && !bytes_lt(name, m[i].name) {
        lemma_insert_pos_from(m, name, i + 1);
    }
}

/// The index of the selection with the given name.
fn locate(m: &Vec<Selected>, name: &String) -> (r: Option<usize>)
    ensures
        match r {
            Some(i) => i == find_sel(sels_of(m@), utf8_of(*name)) && i < m@.len(),
            None => find_sel(sels_of(m@), utf8_of(*name)) == -1,
        },
{
    let ghost v = sels_of(m@);
    let mut i: usize = 0;
    while i < m.len()
        invariant
            i <= m@.len(),
            v == sels_of(m@),
            find_sel(v, utf8_of(*name)) == find_sel_from(v, utf8_of(*name), i as int),
        decreases m@.len() - i,
    {
        if crate::paths::same_name(&m[i].name, name) {
            return Some(i);
        }
        i = i + 1;
    }
    None
}

/// Where a new selection with the given name goes.
fn insertion_point(m: &Vec<Selected>, name: &String) -> (r: usize)
    ensures
        r == insert_pos(sels_of(m@), utf8_of(*name)),
        r <= m@.len(),
{
    let ghost v = sels_of(m@);
    let mut i: usize = 0;
    while i < m.len()
        invariant
            i <= m@.len(),
            v == sels_of(m@),
            insert_pos(v, utf8_of(*name)) == insert_pos_from(v, utf8_of(*name), i as int),
        decreases m@.len() - i,
    {
        if crate::paths::name_lt(name, &m[i].name) {
            return i;
        }
        i = i + 1;
    }
    i
}

/// Stores `e` under its name, replacing a selection of the same name.
fn store(m: &mut Vec<Selected>, e: Selected)
    ensures
        sels_of(final(m)@) == put(sels_of(old(m)@), e@),
{
    match locate(m, &e.name) {
        Some(i) => {
            let ghost ev = e@;
            m.remove(i);
            m.insert(i, e);
            proof {
                assert(sels_of(m@) =~= sels_of(old(m)@).update(i as int, ev));
            }
        },
        None => {
            let p = insertion_point(m, &e.name);
            let ghost ev = e@;
            m.insert(p, e);
            proof {
                assert(sels_of(m@) =~= sels_of(old(m)@).insert(p as int, ev));
            }
        },
    }
}

/// Adds `e` under its name; when the name is taken, merges the children.
fn merge_into(m: &mut Vec<Selected>, e: Selected)
    ensures
        sels_of(final(m)@) == merge_entry(sels_of(old(m)@), e@),
    decreases e,
{
    match locate(m, &e.name) {
        Some(i) => {
            let ghost ev = e@;
            let ghost old_x = m@[i as int]@;
            let mut x = m.remove(i);
            let Selected { name: _, path: _, kind: _, children } = e;
            proof {
                assert(sels_of(children@) =~= ev.children);
            }
            merge_all(&mut x.children, children);
            let ghost nx = x@;
            proof {
                assert(nx.children =~= sels_of(x.children@));
                assert(nx == Sel {
                    name: old_x.name,
                    path: old_x.path,
                    kind: old_x.kind,
                    children: merge_children(old_x.children, ev.children),
                }) by {
                    assert(old_x.children =~= sels_of(old(m)@[i as int].children@));
                }
            }
            m.insert(i, x);
            proof {
                assert(sels_of(m@) =~= sels_of(old(m)@).update(i as int, nx));
            }
        },
        None => {
            let p = insertion_point(m, &e.name);
            let ghost ev = e@;
            m.insert(p, e);
            proof {
                assert(sels_of(m@) =~= sels_of(old(m)@).insert(p as int, ev));
            }
        },
    }
}

/// Merges `add` into `existing`, which is first put in name order.
fn merge_all(existing: &mut Vec<Selected>, add: Vec<Selected>)
    ensures
        sels_of(final(existing)@) == merge_children(sels_of(old(existing)@), sels_of(add@)),
    decreases add,
{
    let ghost orig = existing@;
    let mut items: Vec<Selected> = Vec::new();
    std::mem::swap(&mut items, existing);
    let ghost mut j: int = 0;
    proof {
        assert(sels_of(orig).take(0) =~= Seq::<Sel>::empty());
        assert(sels_of(existing@) =~= Seq::<Sel>::empty());
        assert(items@ =~= orig.subrange(0, orig.len() as int));
    }
    while items.len() > 0
        invariant
            0 <= j <= orig.len(),
            items@ == orig.subrange(j, orig.len() as int),
            sels_of(existing@) == rebuild(sels_of(orig).take(j)),
        decreases items@.len(),
    {
        let e = items.remove(0);
        proof {
            assert(e == orig[j]);
            let t = sels_of(orig).take(j + 1);
            assert(t.drop_last() =~= sels_of(orig).take(j));
            assert(t.last() == e@);
        }
        store(existing, e);
        proof {
            j = j + 1;
            assert(items@ =~= orig.subrange(j, orig.len() as int));
        }
    }
    proof {
        assert(sels_of(orig).take(orig.len() as int) =~= sels_of(orig));
        assert(sels_of(orig) == sels_of(old(existing)@));
    }
    let ghost all = sels_of(add@);
    let mut rest = add;
    let ghost mut k: int = 0;
    proof {
        assert(sels_of(rest@) =~= all.subrange(0, all.len() as int));
        assert(all.subrange(0, all.len() as int) =~= all);
    }
    while rest.len() > 0
        invariant
            0 <= k <= all.len(),
            rest@ == add@.subrange(k, add@.len() as int),
            all == sels_of(add@),
            merge_children(sels_of(old(existing)@), all) == merge_adds(
                sels_of(existing@),
                sels_of(rest@),
            ),
        decreases rest@.len(),
    {
        let ghost r = sels_of(rest@);
        let e = rest.remove(0);
        proof {
            assert(e == add@[k]);
            assert(r[0] == e@);
            assert(sels_of(rest@) =~= r.subrange(1, r.len() as int));
            assert(decreases_to!(add => add@[k]));
        }
        merge_into(existing, e);
        proof {
            k = k + 1;
            assert(rest@ =~= add@.subrange(k, add@.len() as int));
        }
    }
    proof {
        assert(sels_of(rest@) =~= Seq::<Sel>::empty());
    }
}

// ---------------------------------------------------------------------------
// Executable reading of directories and recursive selection.

/// Whether an executable outcome agrees with the spec's.
pub open spec fn sels_result(r: Result<Vec<Selected>, Stop>, s: Result<Seq<Sel>, SpecStop>) -> bool {
    match (r, s) {
        (Ok(v), Ok(t)) => sels_of(v@) == t,
        (Err(e), Err(f)) => e@ == f,
        _ => false,
    }
}

/// A copy of a list of names.
pub fn copy_names(v: &Vec<String>) -> (r: Vec<String>)
    ensures
        r@ == v@,
{
    let mut r: Vec<String> = Vec::new();
    let mut i: usize = 0;
    while i < v.len()
        invariant
            i <= v@.len(),
            r@ == v@.subrange(0, i as int),
        decreases v@.len() - i,
    {
        r.push(v[i].clone());
        i = i + 1;
        proof {
            assert(r@ =~= v@.subrange(0, i as int));
        }
    }
    proof {
        assert(v@.subrange(0, v@.len() as int) =~= v@);
    }
    r
}

/// `v` followed by `name`.
pub fn with_name(v: &Vec<String>, name: &String) -> (r: Vec<String>)
    ensures
        r@ == v@.push(*name),
        utf8_seq(r@) == utf8_seq(v@).push(utf8_of(*name)),
{
    let mut r = copy_names(v);
    r.push(name.clone());
    proof {
        assert(utf8_seq(r@) =~= utf8_seq(v@).push(utf8_of(*name)));
    }
    r
}

/// `v` followed by `w`.
pub fn concat_names(v: &Vec<String>, w: &Vec<String>) -> (r: Vec<String>)
    ensures
        utf8_seq(r@) == utf8_seq(v@) + utf8_seq(w@),
{
    let mut r = copy_names(v);
    let mut i: usize = 0;
    while i < w.len()
        invariant
            i <= w@.len(),
            utf8_seq(r@) == utf8_seq(v@) + utf8_seq(w@).subrange(0, i as int),
        decreases w@.len() - i,
    {
        let ghost before = r@;
        r.push(w[i].clone());
        proof {
            assert(r@ == before.push(w@[i as int]));
            assert(utf8_seq(r@) =~= utf8_seq(before).push(utf8_of(w@[i as int])));
            assert(utf8_seq(w@).subrange(0, i + 1) =~= utf8_seq(w@).subrange(0, i as int).push(
                utf8_of(w@[i as int]),
            ));
        }
        i = i + 1;
    }
    proof {
        assert(utf8_seq(w@).subrange(0, w@.len() as int) =~= utf8_seq(w@));
    }
    r
}

/// The message recorded when an entry listed in a directory is gone when it
/// is inspected.
fn disappeared() -> (r: String)
    ensures
        r@ == disappeared_message(),
{
    "entry disappeared while resolving".to_owned()
}

/// The stop that asks for the kind of `name` inside the directory at `rel`.
fn need_stat(rel: &Vec<String>, name: &String) -> (r: Stop)
    ensures
        r@ == SpecStop::Need(SpecRequest::Stat(utf8_seq(rel@).push(utf8_of(*name)))),
{
    Stop::Need(FsRequest::Stat(with_name(rel, name)))
}

/// The entries of the directory `n` at `dir`, in name order.
fn read_directory(n: &FsNode, dir: &String, rel: &Vec<String>) -> (r: Result<Vec<Selected>, Stop>)
    ensures
        sels_result(r, read_children(*n, utf8_of(*dir), utf8_seq(rel@))),
{
    let names = match &n.listing {
        Probe::Unknown => {
            return Err(Stop::Need(FsRequest::List(copy_names(rel))));
        },
        Probe::Failed(msg) => {
            return Err(Stop::Fail(ResolveError::ReadDirectory { path: dir.clone(), source: msg.clone() }));
        },
        Probe::Known(names) => names,
    };
    let ghost d = utf8_of(*dir);
    let ghost r = utf8_seq(rel@);
    let mut acc: Vec<Selected> = Vec::new();
    let mut i: usize = 0;
    proof {
        assert(sels_of(acc@) =~= Seq::<Sel>::empty());
    }
    while i < names.len()
        invariant
            i <= names@.len(),
            n.listing == Probe::Known(*names),
            d == utf8_of(*dir),
            r == utf8_seq(rel@),
            read_children(*n, d, r) == read_names(*n, d, r, names@, i as int, sels_of(acc@)),
        decreases names@.len() - i,
    {
        let name = &names[i];
        let path = crate::paths::join(dir, name);
        match crate::fs::find_child(n, name) {
            None => {
                return Err(need_stat(rel, name));
            },
            Some(ci) => {
                match &n.children[ci].node.stat {
                    Probe::Unknown => {
                        return Err(need_stat(rel, name));
                    },
                    Probe::Failed(msg) => {
                        return Err(Stop::Fail(ResolveError::ReadMetadata { path, source: msg.clone() }));
                    },
                    Probe::Known(None) => {
                        return Err(Stop::Fail(ResolveError::ReadMetadata { path, source: disappeared() }));
                    },
                    Probe::Known(Some(kind)) => {
                        let e = Selected { name: name.clone(), path, kind: *kind, children: Vec::new() };
                        proof {
                            assert(e@.children =~= Seq::<Sel>::empty());
                        }
                        store(&mut acc, e);
                    },
                }
            },
        }
        i = i + 1;
    }
    Ok(acc)
}

/// The budget of the level below.
fn lower_budget(budget: Option<usize>) -> (r: Option<usize>)
    requires
        budget matches Some(b) ==> b > 0,
    ensures
        r == lower(budget),
{
    match budget {
        Some(b) => Some(b - 1),
        None => None,
    }
}

/// The rules that an optional list of ignore rules holds.
pub open spec fn rules_view(g: Option<Vec<IgnoreRule>>) -> Option<Seq<Rule>> {
    match g {
        Some(v) => Some(rules_of(v@)),
        None => None,
    }
}

/// The path of the `.gitignore` file in the directory `dir`.
fn ignore_file_path(dir: &String) -> (r: String)
    ensures
        utf8_of(r) == join_path(utf8_of(*dir), ignore_file_name()),
{
    let name = ".gitignore".to_owned();
    proof {
        reveal_strlit(".gitignore");
        assert(name@ == seq!['.', 'g', 'i', 't', 'i', 'g', 'n', 'o', 'r', 'e']);
        crate::paths::lemma_encode_ascii_seq(name@);
        assert(utf8_of(name) =~= ignore_file_name());
    }
    crate::paths::join(dir, &name)
}

/// The ignore rules in force inside the directory `n` at `dir`.
fn rules_here(
    n: &FsNode,
    dir: &String,
    rel: &Vec<String>,
    local: &Vec<String>,
    git: &Option<Vec<IgnoreRule>>,
) -> (r: Result<Option<Vec<IgnoreRule>>, Stop>)
    ensures
        match (r, rules_in(*n, utf8_of(*dir), utf8_seq(rel@), utf8_seq(local@), rules_view(*git))) {
            (Ok(g), Ok(h)) => rules_view(g) == h,
            (Err(e), Err(f)) => e@ == f,
            _ => false,
        },
{
    match git {
        None => Ok(None),
        Some(rules) => match &n.ignore_file {
            Probe::Unknown => Err(Stop::Need(FsRequest::IgnoreFile(copy_names(rel)))),
            Probe::Failed(msg) => Err(
                Stop::Fail(ResolveError::ReadMetadata { path: ignore_file_path(dir), source: msg.clone() }),
            ),
            Probe::Known(None) => {
                let none: Vec<IgnoreRule> = Vec::new();
                let g = crate::ignore::append_rules(rules, none);
                proof {
                    assert(rules_of(g@) =~= rules_of(rules@));
                }
                Ok(Some(g))
            },
            Probe::Known(Some(text)) => {
                let own = crate::ignore::parse_ignore_rules(text, local);
                Ok(Some(crate::ignore::append_rules(rules, own)))
            },
        },
    }
}

/// Whether `name` is the name of git's repository directory.
fn is_git_dir(name: &String) -> (r: bool)
    ensures
        r == (utf8_of(*name) == git_dir_name()),
{
    let b = name.as_str().as_bytes();
    let r = b.len() == 4 && b[0] == 0x2E && b[1] == 0x67 && b[2] == 0x69 && b[3] == 0x74;
    proof {
        if r {
            assert(b@ =~= git_dir_name());
        }
    }
    r
}

/// Whether git's rules, where they apply, leave out the entry at `loc`.
fn git_skips(git: &Option<Vec<IgnoreRule>>, loc: &Vec<String>, kind: ResolvedEntryKind) -> (r: bool)
    requires
        loc@.len() > 0,
    ensures
        r == skipped_by_git(rules_view(*git), utf8_seq(loc@), kind),
{
    match git {
        None => false,
        Some(rules) => {
            let last = &loc[loc.len() - 1];
            is_git_dir(last) || crate::ignore::is_ignored(rules, loc, kind == ResolvedEntryKind::Directory)
        },
    }
}

/// Everything below the directory `n` at `dir`, down to `budget` levels,
/// leaving out what the exclusions match.
fn select_recursive(
    n: &FsNode,
    dir: &String,
    rel: &Vec<String>,
    local: &Vec<String>,
    budget: Option<usize>,
    ex: &Vec<Vec<String>>,
    git: &Option<Vec<IgnoreRule>>,
) -> (r: Result<Vec<Selected>, Stop>)
    ensures
        sels_result(
            r,
            resolve_recursive(
                *n,
                utf8_of(*dir),
                utf8_seq(rel@),
                utf8_seq(local@),
                budget,
                comps_list(ex@),
                rules_view(*git),
            ),
        ),
    decreases n,
{
    let ghost d = utf8_of(*dir);
    let ghost r = utf8_seq(rel@);
    let ghost l = utf8_seq(local@);
    let ghost exv = comps_list(ex@);
    let cs = match read_directory(n, dir, rel) {
        Err(e) => {
            return Err(e);
        },
        Ok(cs) => cs,
    };
    let here = match rules_here(n, dir, rel, local, git) {
        Err(e) => {
            return Err(e);
        },
        Ok(h) => h,
    };
    let ghost g = rules_view(here);
    let ghost all = sels_of(cs@);
    let ghost orig = cs@;
    let mut rest = cs;
    let ghost mut k: int = 0;
    let mut acc: Vec<Selected> = Vec::new();
    proof {
        assert(sels_of(acc@) =~= Seq::<Sel>::empty());
        assert(rest@ =~= orig.subrange(0, orig.len() as int));
    }
    while rest.len() > 0
        invariant
            0 <= k <= orig.len(),
            all == sels_of(orig),
            rest@ == orig.subrange(k, orig.len() as int),
            d == utf8_of(*dir),
            r == utf8_seq(rel@),
            l == utf8_seq(local@),
            exv == comps_list(ex@),
            g == rules_view(here),
            read_children(*n, d, r) == Ok::<Seq<Sel>, SpecStop>(all),
            resolve_recursive(*n, d, r, l, budget, exv, rules_view(*git)) == recurse_children(
                *n,
                r,
                l,
                budget,
                exv,
                g,
                all,
                k,
                sels_of(acc@),
            ),
        decreases rest@.len(),
    {
        let mut c = rest.remove(0);
        proof {
            assert(c == orig[k]);
            assert(all[k] == c@);
        }
        let loc = with_name(local, &c.name);
        if crate::paths::excluded(&loc, ex) || git_skips(&here, &loc, c.kind) {
        } else if c.kind == ResolvedEntryKind::Directory && (budget.is_none() || budget.unwrap() > 1) {
            match crate::fs::find_child(n, &c.name) {
                None => {
                    return Err(need_stat(rel, &c.name));
                },
                Some(ci) => {
                    let child_rel = with_name(rel, &c.name);
                    let sub = match select_recursive(
                        &n.children[ci].node,
                        &c.path,
                        &child_rel,
                        &loc,
                        lower_budget(budget),
                        ex,
                        &here,
                    ) {
                        Err(e) => {
                            return Err(e);
                        },
                        Ok(sub) => sub,
                    };
                    let ghost cv = c@;
                    c.children = sub;
                    proof {
                        assert(c@ == Sel { name: cv.name, path: cv.path, kind: cv.kind, children: sels_of(c.children@) }) by {
                            assert(c@.children =~= sels_of(c.children@));
                        }
                    }
                    store(&mut acc, c);
                },
            }
        } else {
            store(&mut acc, c);
        }
        proof {
            k = k + 1;
            assert(rest@ =~= orig.subrange(k, orig.len() as int));
        }
    }
    Ok(acc)
}

// ---------------------------------------------------------------------------
// Executable literal paths and directives.

pub open spec fn fin_view(f: Option<Vec<Selected>>) -> Option<Seq<Sel>> {
    match f {
        Some(v) => Some(sels_of(v@)),
        None => None,
    }
}

/// Puts `e` back at `slot`, where a selection of the same name was taken
/// out, or stores it when there was none.
fn put_back(m: Vec<Selected>, slot: Option<usize>, e: Selected, ghost_old: Ghost<Seq<Sel>>) -> (r: Vec<Selected>)
    requires
        match slot {
            Some(i) => i <= m@.len() && 0 <= find_sel(ghost_old@, e@.name) == i < ghost_old@.len()
                && sels_of(m@) == ghost_old@.remove(i as int),
            None => find_sel(ghost_old@, e@.name) == -1 && sels_of(m@) == ghost_old@,
        },
    ensures
        sels_of(r@) == put(ghost_old@, e@),
{
    let mut m = m;
    match slot {
        Some(i) => {
            let ghost ev = e@;
            let ghost before = m@;
            m.insert(i, e);
            proof {
                assert(sels_of(m@) =~= sels_of(before).insert(i as int, ev));
                assert(ghost_old@.remove(i as int).insert(i as int, ev) =~= ghost_old@.update(
                    i as int,
                    ev,
                ));
            }
        },
        None => {
            store(&mut m, e);
        },
    }
    m
}

/// Takes the selection named `name` out of `m`, or makes a new one.
fn take_entry(m: &mut Vec<Selected>, name: &String, path: &String, kind: ResolvedEntryKind) -> (r: (
    Option<usize>,
    Selected,
))
    ensures
        r.1@.name == utf8_of(*name),
        match r.0 {
            Some(i) => 0 <= find_sel(sels_of(old(m)@), utf8_of(*name)) == i < old(m)@.len() && i
                <= final(m)@.len() && r.1@ == sels_of(old(m)@)[i as int] && sels_of(final(m)@)
                == sels_of(old(m)@).remove(i as int),
            None => find_sel(sels_of(old(m)@), utf8_of(*name)) == -1 && sels_of(final(m)@) == sels_of(
                old(m)@,
            ) && r.1@ == Sel {
                name: utf8_of(*name),
                path: utf8_of(*path),
                kind,
                children: seq![],
            },
        },
{
    let ghost mv = sels_of(m@);
    match locate(m, name) {
        Some(i) => {
            proof {
                lemma_find_sel_from(mv, utf8_of(*name), 0);
            }
            let e = m.remove(i);
            proof {
                assert(sels_of(m@) =~= mv.remove(i as int));
            }
            (Some(i), e)
        },
        None => {
            let e = Selected { name: name.clone(), path: path.clone(), kind, children: Vec::new() };
            proof {
                assert(e@.children =~= Seq::<Sel>::empty());
            }
            (None, e)
        },
    }
}

/// Selects the path `comps[k..]` below the directory `n` at `dir`, which
/// is known to exist.
fn place_selection(
    m: Vec<Selected>,
    n: &FsNode,
    dir: &String,
    rel: &Vec<String>,
    comps: &Vec<String>,
    k: usize,
    fin: Option<Vec<Selected>>,
) -> (r: Result<Vec<Selected>, Stop>)
    requires
        k <= comps@.len(),
    ensures
        sels_result(
            r,
            place_literal(
                sels_of(m@),
                *n,
                utf8_of(*dir),
                utf8_seq(rel@),
                utf8_seq(comps@).skip(k as int),
                fin_view(fin),
            ),
        ),
    decreases comps@.len() - k,
{
    let ghost cs = utf8_seq(comps@).skip(k as int);
    let ghost mv = sels_of(m@);
    if k == comps.len() {
        return Ok(m);
    }
    proof {
        assert(cs[0] == utf8_of(comps@[k as int]));
        assert(cs.drop_first() =~= utf8_seq(comps@).skip(k + 1));
    }
    let name = &comps[k];
    let path = crate::paths::join(dir, name);
    let ci = match crate::fs::find_child(n, name) {
        None => {
            return Err(need_stat(rel, name));
        },
        Some(ci) => ci,
    };
    let kind = match &n.children[ci].node.stat {
        Probe::Unknown => {
            return Err(need_stat(rel, name));
        },
        Probe::Failed(msg) => {
            return Err(Stop::Fail(ResolveError::ReadMetadata { path, source: msg.clone() }));
        },
        Probe::Known(None) => {
            return Ok(m);
        },
        Probe::Known(Some(kind)) => *kind,
    };
    let mut m = m;
    let (slot, e) = take_entry(&mut m, name, &path, kind);
    if k + 1 == comps.len() {
        proof {
            assert(cs.drop_first().len() == 0);
        }
        match fin {
            Some(more) => {
                let mut e = e;
                let ghost ev = e@;
                let ghost oc = e.children@;
                proof {
                    assert(ev.children =~= sels_of(oc));
                }
                merge_all(&mut e.children, more);
                proof {
                    assert(e@ == Sel {
                        name: ev.name,
                        path: ev.path,
                        kind: ev.kind,
                        children: sels_of(e.children@),
                    }) by {
                        assert(e@.children =~= sels_of(e.children@));
                    }
                }
                Ok(put_back(m, slot, e, Ghost(mv)))
            },
            None => Ok(put_back(m, slot, e, Ghost(mv))),
        }
    } else if kind != ResolvedEntryKind::Directory {
        Ok(put_back(m, slot, e, Ghost(mv)))
    } else {
        let ghost ev = e@;
        let Selected { name: en, path: ep, kind: ek, children: ec } = e;
        proof {
            assert(ev.children =~= sels_of(ec@));
        }
        let child_rel = with_name(rel, name);
        let sub = match place_selection(ec, &n.children[ci].node, &path, &child_rel, comps, k + 1, fin) {
            Err(x) => {
                return Err(x);
            },
            Ok(sub) => sub,
        };
        let e2 = Selected { name: en, path: ep, kind: ek, children: sub };
        proof {
            assert(e2@ == Sel { name: ev.name, path: ev.path, kind: ev.kind, children: sels_of(e2.children@) }) by {
                assert(e2@.children =~= sels_of(e2.children@));
            }
        }
        Ok(put_back(m, slot, e2, Ghost(mv)))
    }
}

/// Whether an executable probe agrees with the spec's.
pub open spec fn bool_result(r: Result<bool, Stop>, s: Result<bool, SpecStop>) -> bool {
    match (r, s) {
        (Ok(a), Ok(b)) => a == b,
        (Err(x), Err(y)) => x@ == y,
        _ => false,
    }
}

/// Whether the path `comps[k..]` exists below the directory `n` at `dir`.
fn probe_path(n: &FsNode, dir: &String, rel: &Vec<String>, comps: &Vec<String>, k: usize) -> (r:
    Result<bool, Stop>)
    requires
        k <= comps@.len(),
    ensures
        bool_result(r, probe_literal(*n, utf8_of(*dir), utf8_seq(rel@), utf8_seq(comps@).skip(k as int))),
    decreases comps@.len() - k,
{
    let ghost cs = utf8_seq(comps@).skip(k as int);
    if k == comps.len() {
        return Ok(true);
    }
    proof {
        assert(cs[0] == utf8_of(comps@[k as int]));
        assert(cs.drop_first() =~= utf8_seq(comps@).skip(k + 1));
    }
    let name = &comps[k];
    let path = crate::paths::join(dir, name);
    let ci = match crate::fs::find_child(n, name) {
        None => {
            return Err(need_stat(rel, name));
        },
        Some(ci) => ci,
    };
    let kind = match &n.children[ci].node.stat {
        Probe::Unknown => {
            return Err(need_stat(rel, name));
        },
        Probe::Failed(msg) => {
            return Err(Stop::Fail(ResolveError::ReadMetadata { path, source: msg.clone() }));
        },
        Probe::Known(None) => {
            return Ok(false);
        },
        Probe::Known(Some(kind)) => *kind,
    };
    if k + 1 == comps.len() {
        proof {
            assert(cs.drop_first().len() == 0);
        }
        Ok(true)
    } else if kind != ResolvedEntryKind::Directory {
        Ok(false)
    } else {
        let child_rel = with_name(rel, name);
        probe_path(&n.children[ci].node, &path, &child_rel, comps, k + 1)
    }
}

/// Selects the path `comps` below the directory `n` at `dir` when it exists.
fn select_literal(
    m: Vec<Selected>,
    n: &FsNode,
    dir: &String,
    rel: &Vec<String>,
    comps: &Vec<String>,
    fin: Option<Vec<Selected>>,
) -> (r: Result<Vec<Selected>, Stop>)
    ensures
        sels_result(
            r,
            insert_literal(sels_of(m@), *n, utf8_of(*dir), utf8_seq(rel@), utf8_seq(comps@), fin_view(fin)),
        ),
{
    proof {
        assert(utf8_seq(comps@).skip(0) =~= utf8_seq(comps@));
    }
    match probe_path(n, dir, rel, comps, 0) {
        Err(e) => Err(e),
        Ok(false) => Ok(m),
        Ok(true) => place_selection(m, n, dir, rel, comps, 0, fin),
    }
}

/// A copy of a list of paths.
fn copy_lists(v: &Vec<Vec<String>>) -> (r: Vec<Vec<String>>)
    ensures
        comps_list(r@) == comps_list(v@),
{
    let mut r: Vec<Vec<String>> = Vec::new();
    let mut i: usize = 0;
    while i < v.len()
        invariant
            i <= v@.len(),
            comps_list(r@) == comps_list(v@).take(i as int),
        decreases v@.len() - i,
    {
        let ghost before = comps_list(r@);
        r.push(copy_names(&v[i]));
        proof {
            assert(comps_list(r@) =~= before.push(comps_list(v@)[i as int]));
            assert(comps_list(v@).take(i + 1) =~= comps_list(v@).take(i as int).push(
                comps_list(v@)[i as int],
            ));
        }
        i = i + 1;
    }
    proof {
        assert(comps_list(v@).take(v@.len() as int) =~= comps_list(v@));
    }
    r
}

/// The exclusions among `ex` that reach below the relative path `c`, made
/// relative to it.
fn exclusions_within(ex: &Vec<Vec<String>>, c: &Vec<String>) -> (r: Vec<Vec<String>>)
    ensures
        comps_list(r@) == exclusions_below(comps_list(ex@), utf8_seq(c@), 0),
{
    let ghost exv = comps_list(ex@);
    let ghost cv = utf8_seq(c@);
    let mut single: Vec<Vec<String>> = Vec::new();
    single.push(copy_names(c));
    proof {
        assert(comps_list(single@) =~= seq![cv]);
    }
    let mut r: Vec<Vec<String>> = Vec::new();
    let mut i: usize = 0;
    proof {
        assert(comps_list(r@) + exclusions_below(exv, cv, 0) =~= exclusions_below(exv, cv, 0));
    }
    while i < ex.len()
        invariant
            i <= ex@.len(),
            exv == comps_list(ex@),
            cv == utf8_seq(c@),
            comps_list(single@) == seq![cv],
            comps_list(r@) + exclusions_below(exv, cv, i as int) == exclusions_below(exv, cv, 0),
        decreases ex@.len() - i,
    {
        let e = &ex[i];
        let ghost ev = exv[i as int];
        proof {
            assert(ev == utf8_seq(e@));
            let one = seq![cv];
            assert(one[0] == cv);
            if is_prefix(cv, ev) {
                assert(is_excluded(ev, one));
            }
            if is_excluded(ev, one) {
                let j = choose|j: int| 0 <= j < one.len() && is_prefix(#[trigger] one[j], ev);
                assert(j == 0);
            }
        }
        let reaches = c.len() < e.len() && crate::paths::excluded(e, &single);
        let ghost before = comps_list(r@);
        if reaches {
            let mut rest: Vec<String> = Vec::new();
            let mut k = c.len();
            proof {
                assert(utf8_seq(rest@) =~= ev.skip(c@.len() as int).take(0));
            }
            while k < e.len()
                invariant
                    c@.len() <= k <= e@.len(),
                    ev == utf8_seq(e@),
                    utf8_seq(rest@) == ev.skip(c@.len() as int).take(k - c@.len()),
                decreases e@.len() - k,
            {
                let ghost rb = utf8_seq(rest@);
                rest.push(e[k].clone());
                proof {
                    assert(utf8_seq(rest@) =~= rb.push(ev[k as int]));
                    assert(ev.skip(c@.len() as int).take(k + 1 - c@.len()) =~= ev.skip(
                        c@.len() as int,
                    ).take(k - c@.len()).push(ev[k as int]));
                }
                k = k + 1;
            }
            proof {
                assert(ev.skip(c@.len() as int).take(e@.len() - c@.len()) =~= ev.skip(c@.len() as int));
            }
            r.push(rest);
            proof {
                assert(comps_list(r@) =~= before.push(ev.skip(cv.len() as int)));
                assert(comps_list(r@) + exclusions_below(exv, cv, i + 1) =~= before + exclusions_below(
                    exv,
                    cv,
                    i as int,
                ));
            }
        } else {
            proof {
                assert(before + exclusions_below(exv, cv, i + 1) =~= before + exclusions_below(
                    exv,
                    cv,
                    i as int,
                ));
            }
        }
        i = i + 1;
    }
    proof {
        assert(comps_list(r@) + Seq::<Seq<Seq<u8>>>::empty() =~= comps_list(r@));
    }
    r
}

/// The components of the inherited exclusions followed by those among
/// `entries`.
fn collect_exclusions(entries: &Vec<Entry>, inherited: &Vec<Vec<String>>) -> (r: Result<
    Vec<Vec<String>>,
    ResolveError,
>)
    ensures
        match (r, exclusions_from(directives_of(entries@), 0, comps_list(inherited@))) {
            (Ok(v), Ok(e)) => comps_list(v@) == e,
            (Err(err), Err(p)) => err@ == SpecError::InvalidManifestPath(p),
            _ => false,
        },
{
    let ghost ds = directives_of(entries@);
    let mut acc: Vec<Vec<String>> = copy_lists(inherited);
    let mut i: usize = 0;
    while i < entries.len()
        invariant
            i <= entries@.len(),
            ds == directives_of(entries@),
            exclusions_from(ds, 0, comps_list(inherited@)) == exclusions_from(
                ds,
                i as int,
                comps_list(acc@),
            ),
        decreases entries@.len() - i,
    {
        match &entries[i] {
            Entry::Exclude { path } => {
                match crate::paths::relative_path_components(path) {
                    None => {
                        return Err(ResolveError::InvalidManifestPath { path: path.clone() });
                    },
                    Some(c) => {
                        let ghost cv = utf8_seq(c@);
                        let ghost before = comps_list(acc@);
                        acc.push(c);
                        proof {
                            assert(comps_list(acc@) =~= before.push(cv));
                        }
                    },
                }
            },
            _ => {},
        }
        i = i + 1;
    }
    Ok(acc)
}

/// Merges the listed entries that no exclusion matches.
fn merge_listed_entries(m: &mut Vec<Selected>, cs: Vec<Selected>, ex: &Vec<Vec<String>>)
    ensures
        sels_of(final(m)@) == merge_listed(sels_of(old(m)@), sels_of(cs@), comps_list(ex@), 0),
{
    let ghost all = sels_of(cs@);
    let ghost orig = cs@;
    let mut rest = cs;
    let ghost mut k: int = 0;
    proof {
        assert(rest@ =~= orig.subrange(0, orig.len() as int));
    }
    while rest.len() > 0
        invariant
            0 <= k <= orig.len(),
            all == sels_of(orig),
            rest@ == orig.subrange(k, orig.len() as int),
            merge_listed(sels_of(old(m)@), all, comps_list(ex@), 0) == merge_listed(
                sels_of(m@),
                all,
                comps_list(ex@),
                k,
            ),
        decreases rest@.len(),
    {
        let c = rest.remove(0);
        proof {
            assert(c == orig[k]);
            assert(all[k] == c@);
        }
        let mut single: Vec<String> = Vec::new();
        single.push(c.name.clone());
        proof {
            assert(utf8_seq(single@) =~= seq![all[k].name]);
        }
        if !crate::paths::excluded(&single, ex) {
            merge_into(m, c);
        }
        proof {
            k = k + 1;
            assert(rest@ =~= orig.subrange(k, orig.len() as int));
        }
    }
}

/// The path reached from `dir` through `comps`.
fn join_components(dir: &String, comps: &Vec<String>) -> (r: String)
    ensures
        utf8_of(r) == join_all_path(utf8_of(*dir), utf8_seq(comps@)),
{
    let ghost c = utf8_seq(comps@);
    let mut cur = dir.clone();
    let mut i: usize = 0;
    proof {
        assert(c.skip(0) =~= c);
    }
    while i < comps.len()
        invariant
            i <= comps@.len(),
            c == utf8_seq(comps@),
            join_all_path(utf8_of(*dir), c) == crate::paths::join_all(utf8_of(cur), c.skip(i as int)),
        decreases comps@.len() - i,
    {
        proof {
            assert(c.skip(i as int)[0] == utf8_of(comps@[i as int]));
            assert(c.skip(i as int).drop_first() =~= c.skip(i + 1));
        }
        cur = crate::paths::join(&cur, &comps[i]);
        i = i + 1;
    }
    cur
}

/// The selections that `entries` make in the directory `n` at `dir`.
fn select_entries(
    n: &FsNode,
    dir: &String,
    rel: &Vec<String>,
    entries: &Vec<Entry>,
    depth: Option<usize>,
    global: &Vec<IgnoreRule>,
    inherited: &Vec<Vec<String>>,
) -> (r: Result<Vec<Selected>, Stop>)
    ensures
        sels_result(
            r,
            resolve_entries(
                *n,
                utf8_of(*dir),
                utf8_seq(rel@),
                directives_of(entries@),
                depth,
                rules_of(global@),
                comps_list(inherited@),
            ),
        ),
    decreases entries,
{
    let ghost ds = directives_of(entries@);
    let ghost d = utf8_of(*dir);
    let ghost rv = utf8_seq(rel@);
    let ghost inh = comps_list(inherited@);
    let ex = match collect_exclusions(entries, inherited) {
        Err(e) => {
            return Err(Stop::Fail(e));
        },
        Ok(ex) => ex,
    };
    let ghost exv = comps_list(ex@);
    let mut m: Vec<Selected> = Vec::new();
    let mut i: usize = 0;
    proof {
        assert(sels_of(m@) =~= Seq::<Sel>::empty());
    }
    while i < entries.len()
        invariant
            i <= entries@.len(),
            ds == directives_of(entries@),
            d == utf8_of(*dir),
            rv == utf8_seq(rel@),
            exv == comps_list(ex@),
            inh == comps_list(inherited@),
            resolve_entries(*n, d, rv, ds, depth, rules_of(global@), inh) == resolve_from(
                *n,
                d,
                rv,
                ds,
                exv,
                depth,
                rules_of(global@),
                i as int,
                sels_of(m@),
            ),
        decreases entries@.len() - i,
    {
        proof {
            assert(ds[i as int] == entries@[i as int]@);
        }
        match &entries[i] {
            Entry::Include { path } => {
                match crate::paths::relative_path_components(path) {
                    None => {
                        return Err(Stop::Fail(ResolveError::InvalidManifestPath { path: path.clone() }));
                    },
                    Some(c) => {
                        if !crate::paths::excluded(&c, &ex) {
                            proof {
                                assert(utf8_seq(c@).skip(0) =~= utf8_seq(c@));
                            }
                            m = match select_literal(m, n, dir, rel, &c, None) {
                                Err(e) => {
                                    return Err(e);
                                },
                                Ok(m2) => m2,
                            };
                        }
                    },
                }
            },
            Entry::Exclude { .. } => {},
            Entry::IncludeChildren => {
                let cs = match read_directory(n, dir, rel) {
                    Err(e) => {
                        return Err(e);
                    },
                    Ok(cs) => cs,
                };
                merge_listed_entries(&mut m, cs, &ex);
            },
            Entry::IncludeRecursive | Entry::IncludeRecursiveAll => {
                if !(depth.is_some() && depth.unwrap() == 0) {
                    let local: Vec<String> = Vec::new();
                    proof {
                        assert(utf8_seq(local@) =~= Seq::<Seq<u8>>::empty());
                    }
                    let git = if matches!(entries[i], Entry::IncludeRecursive) {
                        let none: Vec<IgnoreRule> = Vec::new();
                        let g = crate::ignore::append_rules(global, none);
                        proof {
                            assert(rules_of(g@) =~= rules_of(global@));
                        }
                        Some(g)
                    } else {
                        None
                    };
                    let rs = match select_recursive(n, dir, rel, &local, depth, &ex, &git) {
                        Err(e) => {
                            return Err(e);
                        },
                        Ok(rs) => rs,
                    };
                    merge_all(&mut m, rs);
                }
            },
            Entry::Descend { path, entries: sub } => {
                proof {
                    assert(ds[i as int] == Directive::Descend(utf8_of(*path), directives_of(sub@))) by {
                        assert(entries@[i as int]@->Descend_1 =~= directives_of(sub@));
                    }
                }
                match crate::paths::relative_path_components(path) {
                    None => {
                        return Err(Stop::Fail(ResolveError::InvalidManifestPath { path: path.clone() }));
                    },
                    Some(c) => {
                        if !crate::paths::excluded(&c, &ex) {
                            proof {
                                assert(utf8_seq(c@).skip(0) =~= utf8_seq(c@));
                            }
                            let target = join_components(dir, &c);
                            let t = match crate::fs::find_node(n, &c, 0) {
                                None => {
                                    return Err(Stop::Need(FsRequest::Stat(concat_names(rel, &c))));
                                },
                                Some(t) => t,
                            };
                            match &t.stat {
                                Probe::Unknown => {
                                    return Err(Stop::Need(FsRequest::Stat(concat_names(rel, &c))));
                                },
                                Probe::Failed(msg) => {
                                    return Err(
                                        Stop::Fail(
                                            ResolveError::ReadMetadata { path: target, source: msg.clone() },
                                        ),
                                    );
                                },
                                Probe::Known(None) => {},
                                Probe::Known(Some(kind)) => {
                                    if *kind == ResolvedEntryKind::Directory {
                                        let target_rel = concat_names(rel, &c);
                                        proof {
                                            assert(decreases_to!(entries => sub));
                                        }
                                        let below = exclusions_within(&ex, &c);
                                        let children = match select_entries(
                                            t,
                                            &target,
                                            &target_rel,
                                            sub,
                                            depth,
                                            global,
                                            &below,
                                        ) {
                                            Err(e) => {
                                                return Err(e);
                                            },
                                            Ok(children) => children,
                                        };
                                        m = match select_literal(m, n, dir, rel, &c, Some(children)) {
                                            Err(e) => {
                                                return Err(e);
                                            },
                                            Ok(m2) => m2,
                                        };
                                    }
                                },
                            }
                        }
                    },
                }
            },
        }
        i = i + 1;
    }
    Ok(m)
}

/// Drops the names of a selection.
fn finish(s: Selected) -> (r: ResolvedEntry)
    ensures
        r@ == strip(s@),
    decreases s,
{
    let ghost sv = s@;
    let ghost s0 = s;
    let Selected { name: _, path, kind, children } = s;
    let ghost orig = children@;
    proof {
        assert(orig == s0.children@);
    }
    proof {
        assert(sv.children =~= sels_of(orig));
    }
    let mut rest = children;
    let mut out: Vec<ResolvedEntry> = Vec::new();
    let ghost mut k: int = 0;
    proof {
        assert(rest@ =~= orig.subrange(0, orig.len() as int));
    }
    while rest.len() > 0
        invariant
            0 <= k <= orig.len(),
            orig == s0.children@,
            s0 == s,
            rest@ == orig.subrange(k, orig.len() as int),
            out@.len() == k,
            forall|j: int| 0 <= j < k ==> #[trigger] out@[j]@ == strip(orig[j]@),
        decreases rest@.len(),
    {
        let c = rest.remove(0);
        proof {
            assert(c == orig[k]);
            assert(decreases_to!(s => s0.children@[k]));
        }
        let f = finish(c);
        out.push(f);
        proof {
            k = k + 1;
            assert(rest@ =~= orig.subrange(k, orig.len() as int));
        }
    }
    let r = ResolvedEntry { path, kind, children: out };
    proof {
        assert(k == orig.len());
        assert forall|j: int| 0 <= j < orig.len() implies r@.children[j] == strip(sv).children[j] by {
            assert(sv.children[j] == orig[j]@);
            assert(r@.children[j] == out@[j]@);
        }
        assert(r@.children =~= strip(sv).children);
    }
    r
}

/// Resolve a parsed manifest against the directory `root`, whose contents
/// are described, as far as known, by `filesystem`.
///
/// Literal paths that do not exist are omitted. `recursive_depth` limits how
/// many levels each `**` and `***` directive traverses; `None` permits
/// unlimited traversal. `**` leaves out git's repository directory and what
/// git ignores: the rules of `global_ignore` and of the `.gitignore` files in
/// the directories it walks; `***` leaves out nothing. Symbolic links are
/// selected but are never followed. When a fact about the filesystem is
/// missing from `filesystem`, the result names it instead.
pub fn resolve_manifest(
    manifest: &Manifest,
    root: &str,
    recursive_depth: Option<usize>,
    global_ignore: &Vec<IgnoreRule>,
    filesystem: &FsNode,
) -> (r: Resolution)
    ensures
        match (
            r,
            resolution_spec(
                manifest@,
                root.spec_bytes(),
                recursive_depth,
                rules_of(global_ignore@),
                *filesystem,
            ),
        ) {
            (Resolution::Resolved(t), Ok(es)) => utf8_of(t.root) == root.spec_bytes() && res_of(
                t.entries@,
            ) == es,
            (Resolution::Failed(e), Err(SpecStop::Fail(f))) => e@ == f,
            (Resolution::NeedsInput(q), Err(SpecStop::Need(sq))) => q@ == sq,
            _ => false,
        },
{
    let root_path = root.to_owned();
    let rel: Vec<String> = Vec::new();
    proof {
        assert(utf8_seq(rel@) =~= Seq::<Seq<u8>>::empty());
        assert(utf8_of(root_path) == root.spec_bytes());
        assert(manifest@ == directives_of(manifest.entries@));
    }
    let none: Vec<Vec<String>> = Vec::new();
    proof {
        assert(comps_list(none@) =~= Seq::<Seq<Seq<u8>>>::empty());
    }
    match select_entries(
        filesystem,
        &root_path,
        &rel,
        &manifest.entries,
        recursive_depth,
        global_ignore,
        &none,
    ) {
        Err(Stop::Fail(e)) => Resolution::Failed(e),
        Err(Stop::Need(q)) => Resolution::NeedsInput(q),
        Ok(sels) => {
            let ghost sv = sels_of(sels@);
            let ghost orig = sels@;
            let mut rest = sels;
            let mut out: Vec<ResolvedEntry> = Vec::new();
            let ghost mut k: int = 0;
            proof {
                assert(rest@ =~= orig.subrange(0, orig.len() as int));
            }
            while rest.len() > 0
                invariant
                    0 <= k <= orig.len(),
                    rest@ == orig.subrange(k, orig.len() as int),
                    out@.len() == k,
                    forall|j: int| 0 <= j < k ==> #[trigger] out@[j]@ == strip(orig[j]@),
                decreases rest@.len(),
            {
                let c = rest.remove(0);
                proof {
                    assert(c == orig[k]);
                }
                out.push(finish(c));
                proof {
                    k = k + 1;
                    assert(rest@ =~= orig.subrange(k, orig.len() as int));
                }
            }
            let t = ResolvedTree { root: root_path, entries: out };
            proof {
                assert(res_of(t.entries@) =~= Seq::new(sv.len(), |i: int| strip(sv[i])));
            }
            Resolution::Resolved(t)
        },
    }
}

} // verus!
