//! The command line: its arguments, and the text views of a resolved tree.

use vstd::prelude::*;
use vstd::utf8::*;
use vstd::string::*;
use crate::manifest::utf8_of;
use crate::fs::ResolvedEntryKind;
use crate::output::{output_paths, output_spec, Out, OutputPath, outs_of};
use crate::paths::{last_component, lemma_encode_utf8_add, utf8_seq};
use crate::resolver::{res_of, Res, ResolvedEntry, ResolvedTree};
use crate::manifest::Manifest;

verus! {

broadcast use vstd::utf8::group_utf8_lib;

// ---------------------------------------------------------------------------
// Depths.

pub open spec fn is_digit(c: u8) -> bool {
    0x30 <= c <= 0x39
}

/// The number that a run of decimal digits spells.
pub open spec fn digits_value(d: Seq<u8>) -> nat
    decreases d.len(),
{
    if d.len() == 0 {
        0
    } else {
        digits_value(d.drop_last()) * 10 + (d.last() - 0x30) as nat
    }
}

/// A command-line number without its optional leading `+`.
pub open spec fn unsigned_part(b: Seq<u8>) -> Seq<u8> {
    if b.len() > 0 && b[0] == 0x2B {
        b.subrange(1, b.len() as int)
    } else {
        b
    }
}

/// The depth that a command-line value spells: an optional `+` and at least
/// one decimal digit, whose number fits in a `usize`.
pub open spec fn depth_value(b: Seq<u8>) -> Option<usize> {
    let d = unsigned_part(b);
    if d.len() > 0 && (forall|i: int| 0 <= i < d.len() ==> is_digit(#[trigger] d[i])) && digits_value(
        d,
    ) <= usize::MAX {
        Some(digits_value(d) as usize)
    } else {
        None
    }
}

proof fn lemma_digits_grow(d: Seq<u8>, i: int)
    requires
        0 <= i <= d.len(),
        forall|k: int| 0 <= k < d.len() ==> is_digit(#[trigger] d[k]),
    ensures
        digits_value(d.take(i)) <= digits_value(d),
    decreases d.len() - i,
{
    if i < d.len() {
        lemma_digits_grow(d, i + 1);
        assert(d.take(i + 1).drop_last() =~= d.take(i));
        assert(digits_value(d.take(i + 1)) == digits_value(d.take(i)) * 10 + (d[i] - 0x30) as nat);
    } else {
        assert(d.take(i) =~= d);
    }
}

/// Parse a recursion depth given on the command line.
pub fn parse_depth(value: &str) -> (r: Option<usize>)
    ensures
        r == depth_value(value.spec_bytes()),
{
    let b = value.as_bytes();
    let start: usize = if b.len() > 0 && b[0] == 0x2B {
        1
    } else {
        0
    };
    let ghost d = b@.subrange(start as int, b@.len() as int);
    proof {
        if start == 0 {
            assert(d =~= b@);
        }
        assert(d == unsigned_part(b@));
    }
    if start >= b.len() {
        return None;
    }
    let mut acc: usize = 0;
    let mut i = start;
    proof {
        assert(d.take(0) =~= Seq::<u8>::empty());
    }
    while i < b.len()
        invariant
            start <= i <= b@.len(),
            b@ == value.spec_bytes(),
            d == b@.subrange(start as int, b@.len() as int),
            d == unsigned_part(b@),
            forall|k: int| 0 <= k < i - start ==> is_digit(#[trigger] d[k]),
            acc == digits_value(d.take(i - start)),
        decreases b@.len() - i,
    {
        let c = b[i];
        if !(0x30 <= c && c <= 0x39) {
            proof {
                assert(!is_digit(d[i - start]));
            }
            return None;
        }
        proof {
            assert(d.take(i + 1 - start).drop_last() =~= d.take(i - start));
            assert(d[i - start] == c);
        }
        let digit = (c - 0x30) as usize;
        let next = match acc.checked_mul(10) {
            Some(t) => t.checked_add(digit),
            None => None,
        };
        match next {
            Some(v) => {
                acc = v;
            },
            None => {
                proof {
                    assert(digits_value(d.take(i + 1 - start)) > usize::MAX);
                    if forall|k: int| 0 <= k < d.len() ==> is_digit(#[trigger] d[k]) {
                        lemma_digits_grow(d, i + 1 - start);
                    }
                }
                return None;
            },
        }
        i = i + 1;
    }
    proof {
        assert(d.take(d.len() as int) =~= d);
    }
    Some(acc)
}

// ---------------------------------------------------------------------------
// Arguments.

/// What the command line asks for.
#[derive(Debug, PartialEq, Eq)]
pub enum Command {
    /// Check that a manifest parses.
    Validate { manifest_path: String },
    /// Resolve a manifest against a directory (`None`: the current one) and
    /// show the result.
    Resolve {
        manifest_path: String,
        cwd: Option<String>,
        depth: Option<usize>,
        short: bool,
        json: bool,
        flat: bool,
    },
}

/// Why the command line was refused.
#[derive(Debug, PartialEq, Eq)]
pub enum ArgumentError {
    /// The arguments do not follow the usage.
    Usage,
    /// The value given to `--depth` is not a non-negative integer.
    InvalidDepth { value: String },
}

/// The options of `resolve` gathered so far.
pub struct ResolveFlags {
    pub cwd: Option<Seq<char>>,
    pub depth: Option<usize>,
    pub short: bool,
    pub json: bool,
    pub flat: bool,
}

pub enum CommandView {
    Validate(Seq<char>),
    Resolve(Seq<char>, ResolveFlags),
}

pub enum ArgumentErrorView {
    Usage,
    InvalidDepth(Seq<char>),
}

impl View for Command {
    type V = CommandView;

    open spec fn view(&self) -> CommandView {
        match *self {
            Command::Validate { manifest_path } => CommandView::Validate(manifest_path@),
            Command::Resolve { manifest_path, cwd, depth, short, json, flat } => CommandView::Resolve(
                manifest_path@,
                ResolveFlags {
                    cwd: match cwd {
                        Some(c) => Some(c@),
                        None => None,
                    },
                    depth,
                    short,
                    json,
                    flat,
                },
            ),
        }
    }
}

impl View for ArgumentError {
    type V = ArgumentErrorView;

    open spec fn view(&self) -> ArgumentErrorView {
        match *self {
            ArgumentError::Usage => ArgumentErrorView::Usage,
            ArgumentError::InvalidDepth { value } => ArgumentErrorView::InvalidDepth(value@),
        }
    }
}

/// The usage text of the command line.
pub open spec fn usage_text() -> Seq<char> {
    "usage: fsman-cli <FILE>\n       fsman-cli validate <FILE>\n       fsman-cli resolve <FILE> [--cwd <DIRECTORY>] [--depth <LEVELS>] [--short] [--json] [--flat]"@
}

/// The text of the error for a depth whose value, as `{:?}` writes it, is
/// `quoted`.
pub fn invalid_depth_text(quoted: &str) -> (r: String)
    ensures
        r@ == "invalid depth "@ + quoted@ + ": expected a non-negative integer"@,
{
    crate::text::concat_text("invalid depth ", quoted, ": expected a non-negative integer")
}

impl ArgumentError {
    /// What the error says.
    pub fn message(&self) -> (r: String)
        ensures
            r@ == match self@ {
                ArgumentErrorView::Usage => usage_text(),
                ArgumentErrorView::InvalidDepth(v) => "invalid depth "@ + crate::text::debug_text(v)
                    + ": expected a non-negative integer"@,
            },
    {
        match self {
            ArgumentError::Usage => "usage: fsman-cli <FILE>\n       fsman-cli validate <FILE>\n       fsman-cli resolve <FILE> [--cwd <DIRECTORY>] [--depth <LEVELS>] [--short] [--json] [--flat]".to_owned(),
            ArgumentError::InvalidDepth { value } => {
                let quoted = crate::text::debug_quoted(value);
                invalid_depth_text(quoted.as_str())
            },
        }
    }
}

pub open spec fn no_flags() -> ResolveFlags {
    ResolveFlags { cwd: None, depth: None, short: false, json: false, flat: false }
}

/// Reads the options of `resolve` from `args[i..]`. Each option may be given
/// once; `--cwd` and `--depth` take the next argument as their value.
pub open spec fn resolve_flags(args: Seq<Seq<char>>, i: int, f: ResolveFlags) -> Result<
    ResolveFlags,
    ArgumentErrorView,
>
    decreases args.len() - i,
{
    if i < 0 || i >= args.len() {
        Ok(f)
    } else {
        let a = args[i];
        if a == "--cwd"@ && f.cwd is None {
            if i + 1 < args.len() {
                resolve_flags(
                    args,
                    i + 2,
                    ResolveFlags {
                        cwd: Some(args[i + 1]),
                        depth: f.depth,
                        short: f.short,
                        json: f.json,
                        flat: f.flat,
                    },
                )
            } else {
                Err(ArgumentErrorView::Usage)
            }
        } else if a == "--depth"@ && f.depth is None {
            if i + 1 < args.len() {
                match depth_value(encode_utf8(args[i + 1])) {
                    Some(d) => resolve_flags(
                        args,
                        i + 2,
                        ResolveFlags {
                            cwd: f.cwd,
                            depth: Some(d),
                            short: f.short,
                            json: f.json,
                            flat: f.flat,
                        },
                    ),
                    None => Err(ArgumentErrorView::InvalidDepth(args[i + 1])),
                }
            } else {
                Err(ArgumentErrorView::Usage)
            }
        } else if a == "--short"@ && !f.short {
            resolve_flags(
                args,
                i + 1,
                ResolveFlags { cwd: f.cwd, depth: f.depth, short: true, json: f.json, flat: f.flat },
            )
        } else if a == "--json"@ && !f.json {
            resolve_flags(
                args,
                i + 1,
                ResolveFlags { cwd: f.cwd, depth: f.depth, short: f.short, json: true, flat: f.flat },
            )
        } else if a == "--flat"@ && !f.flat {
            resolve_flags(
                args,
                i + 1,
                ResolveFlags { cwd: f.cwd, depth: f.depth, short: f.short, json: f.json, flat: true },
            )
        } else {
            Err(ArgumentErrorView::Usage)
        }
    }
}

/// The command that the arguments (without the program name) ask for:
/// `resolve <FILE> [options]`, `validate <FILE>`, or a lone `<FILE>` to
/// validate.
pub open spec fn command_spec(args: Seq<Seq<char>>) -> Result<CommandView, ArgumentErrorView> {
    if args.len() == 0 {
        Err(ArgumentErrorView::Usage)
    } else if args[0] == "resolve"@ {
        if args.len() < 2 {
            Err(ArgumentErrorView::Usage)
        } else {
            match resolve_flags(args, 2, no_flags()) {
                Ok(f) => Ok(CommandView::Resolve(args[1], f)),
                Err(e) => Err(e),
            }
        }
    } else if args[0] == "validate"@ {
        if args.len() == 2 {
            Ok(CommandView::Validate(args[1]))
        } else {
            Err(ArgumentErrorView::Usage)
        }
    } else if args.len() == 1 {
        Ok(CommandView::Validate(args[0]))
    } else {
        Err(ArgumentErrorView::Usage)
    }
}

pub open spec fn chars_of(v: Seq<String>) -> Seq<Seq<char>> {
    Seq::new(v.len(), |i: int| v[i]@)
}

/// Whether a string spells the given text.
fn spells(s: &String, text: &str) -> (r: bool)
    ensures
        r == (s@ == text@),
{
    let t = text.to_owned();
    *s == t
}

/// Parse the arguments of `resolve` that follow the manifest path.
pub fn parse_resolve_arguments(args: &Vec<String>, from: usize) -> (r: Result<
    (Option<String>, Option<usize>, bool, bool, bool),
    ArgumentError,
>)
    ensures
        match (r, resolve_flags(chars_of(args@), from as int, no_flags())) {
            (Ok((cwd, depth, short, json, flat)), Ok(f)) => {
                &&& f.cwd == match cwd {
                    Some(c) => Some(c@),
                    None => None::<Seq<char>>,
                }
                &&& f.depth == depth
                &&& f.short == short
                &&& f.json == json
                &&& f.flat == flat
            },
            (Err(e), Err(g)) => e@ == g,
            _ => false,
        },
{
    let ghost a = chars_of(args@);
    let mut cwd: Option<String> = None;
    let mut depth: Option<usize> = None;
    let mut short = false;
    let mut json = false;
    let mut flat = false;
    let mut i = from;
    while i < args.len()
        invariant
            a == chars_of(args@),
            resolve_flags(a, i as int, ResolveFlags {
                cwd: match cwd {
                    Some(c) => Some(c@),
                    None => None::<Seq<char>>,
                },
                depth,
                short,
                json,
                flat,
            }) == resolve_flags(a, from as int, no_flags()),
        decreases args@.len() - i,
    {
        let arg = &args[i];
        proof {
            assert(a[i as int] == arg@);
        }
        if spells(arg, "--cwd") && cwd.is_none() {
            if i + 1 >= args.len() {
                return Err(ArgumentError::Usage);
            }
            proof {
                assert(a[i + 1] == args@[i + 1]@);
            }
            cwd = Some(args[i + 1].clone());
            i = i + 2;
        } else if spells(arg, "--depth") && depth.is_none() {
            if i + 1 >= args.len() {
                return Err(ArgumentError::Usage);
            }
            let value = &args[i + 1];
            proof {
                assert(a[i + 1] == value@);
            }
            match parse_depth(value.as_str()) {
                Some(d) => {
                    depth = Some(d);
                },
                None => {
                    return Err(ArgumentError::InvalidDepth { value: value.clone() });
                },
            }
            i = i + 2;
        } else if spells(arg, "--short") && !short {
            short = true;
            i = i + 1;
        } else if spells(arg, "--json") && !json {
            json = true;
            i = i + 1;
        } else if spells(arg, "--flat") && !flat {
            flat = true;
            i = i + 1;
        } else {
            return Err(ArgumentError::Usage);
        }
    }
    Ok((cwd, depth, short, json, flat))
}

/// Parse the command-line arguments, the program name left out.
pub fn parse_arguments(args: &Vec<String>) -> (r: Result<Command, ArgumentError>)
    ensures
        match (r, command_spec(chars_of(args@))) {
            (Ok(c), Ok(v)) => c@ == v,
            (Err(e), Err(g)) => e@ == g,
            _ => false,
        },
{
    let ghost a = chars_of(args@);
    if args.len() == 0 {
        return Err(ArgumentError::Usage);
    }
    let first = &args[0];
    proof {
        assert(a[0] == first@);
    }
    if spells(first, "resolve") {
        if args.len() < 2 {
            return Err(ArgumentError::Usage);
        }
        proof {
            assert(a[1] == args@[1]@);
        }
        match parse_resolve_arguments(args, 2) {
            Ok((cwd, depth, short, json, flat)) => Ok(
                Command::Resolve {
                    manifest_path: args[1].clone(),
                    cwd,
                    depth,
                    short,
                    json,
                    flat,
                },
            ),
            Err(e) => Err(e),
        }
    } else if spells(first, "validate") {
        if args.len() != 2 {
            return Err(ArgumentError::Usage);
        }
        proof {
            assert(a[1] == args@[1]@);
        }
        Ok(Command::Validate { manifest_path: args[1].clone() })
    } else if args.len() == 1 {
        Ok(Command::Validate { manifest_path: first.clone() })
    } else {
        Err(ArgumentError::Usage)
    }
}

// ---------------------------------------------------------------------------
// Text views of a resolved tree.

/// The name of an entry kind.
pub open spec fn kind_text(kind: ResolvedEntryKind) -> Seq<char> {
    match kind {
        ResolvedEntryKind::File => "file"@,
        ResolvedEntryKind::Directory => "directory"@,
        ResolvedEntryKind::Symlink => "symlink"@,
        ResolvedEntryKind::Other => "other"@,
    }
}

/// Return the name of an entry kind.
pub fn kind_name(kind: ResolvedEntryKind) -> (r: &'static str)
    ensures
        r@ == kind_text(kind),
{
    match kind {
        ResolvedEntryKind::File => "file",
        ResolvedEntryKind::Directory => "directory",
        ResolvedEntryKind::Symlink => "symlink",
        ResolvedEntryKind::Other => "other",
    }
}

/// A path shown with a trailing `/` when it leads to a directory.
pub open spec fn shown_path(p: Seq<u8>, kind: ResolvedEntryKind) -> Seq<u8> {
    if kind == ResolvedEntryKind::Directory && !(p.len() > 0 && p.last() == 0x2F) {
        p.push(0x2F)
    } else {
        p
    }
}

/// Appends `/` to a string.
fn push_separator(s: &mut String)
    ensures
        utf8_of(*final(s)) == utf8_of(*old(s)).push(0x2F),
{
    let ghost before = s@;
    s.append("/");
    proof {
        reveal_strlit("/");
        assert("/"@ == seq!['/']);
        lemma_encode_utf8_add(before, "/"@);
        crate::text::lemma_encode_ascii('/');
        assert(utf8_of(*s) =~= utf8_of(*old(s)).push(0x2F));
    }
}

/// Format an output path, marking directories with a trailing separator.
pub fn formatted_output_path(entry: &OutputPath) -> (r: String)
    ensures
        utf8_of(r) == shown_path(utf8_of(entry.path), entry.kind),
{
    let mut path = entry.path.clone();
    let b = entry.path.as_str().as_bytes();
    if entry.kind == ResolvedEntryKind::Directory && !(b.len() > 0 && b[b.len() - 1] == 0x2F) {
        push_separator(&mut path);
    }
    path
}

/// The connector that leads to an entry of a tree view.
pub open spec fn connector(last: bool) -> Seq<u8> {
    if last {
        encode_utf8("\u{2514}\u{2500}\u{2500} "@)
    } else {
        encode_utf8("\u{251c}\u{2500}\u{2500} "@)
    }
}

/// What the lines below an entry add to the prefix.
pub open spec fn indent(last: bool) -> Seq<u8> {
    if last {
        encode_utf8("    "@)
    } else {
        encode_utf8("\u{2502}   "@)
    }
}

/// The lines that show the entries `es[i..]`, each behind `prefix`, with
/// the entries below each one indented under it.
pub open spec fn entry_lines(es: Seq<Res>, prefix: Seq<u8>, i: int) -> Seq<Seq<u8>>
    decreases es, es.len() - i,
{
    if i < 0 || i >= es.len() {
        seq![]
    } else {
        let last = i + 1 == es.len();
        seq![prefix + connector(last) + last_component(es[i].path)] + entry_lines(
            es[i].children,
            prefix + indent(last),
            0,
        ) + entry_lines(es, prefix, i + 1)
    }
}

/// The lines of the tree view: the root, then its entries.
pub open spec fn tree_text(root: Seq<u8>, es: Seq<Res>) -> Seq<Seq<u8>> {
    seq![root] + entry_lines(es, seq![], 0)
}

/// Appends a piece of text to a string.
fn append_text(s: &mut String, t: &str)
    ensures
        utf8_of(*final(s)) == utf8_of(*old(s)) + encode_utf8(t@),
{
    let ghost before = s@;
    s.append(t);
    proof {
        lemma_encode_utf8_add(before, t@);
    }
}

fn connector_text(last: bool) -> (r: &'static str)
    ensures
        encode_utf8(r@) == connector(last),
{
    if last {
        "\u{2514}\u{2500}\u{2500} "
    } else {
        "\u{251c}\u{2500}\u{2500} "
    }
}

fn indent_text(last: bool) -> (r: &'static str)
    ensures
        encode_utf8(r@) == indent(last),
{
    if last {
        "    "
    } else {
        "\u{2502}   "
    }
}

/// Appends the lines that show the entries `es`, behind `prefix`.
fn push_entry_lines(es: &Vec<ResolvedEntry>, prefix: &String, out: &mut Vec<String>)
    ensures
        utf8_seq(final(out)@) == utf8_seq(old(out)@) + entry_lines(res_of(es@), utf8_of(*prefix), 0),
    decreases es,
{
    let ghost all = res_of(es@);
    let ghost pre = utf8_of(*prefix);
    let mut i: usize = 0;
    proof {
        assert(utf8_seq(out@) + entry_lines(all, pre, 0) == utf8_seq(old(out)@) + entry_lines(
            all,
            pre,
            0,
        ));
    }
    while i < es.len()
        invariant
            i <= es@.len(),
            all == res_of(es@),
            pre == utf8_of(*prefix),
            utf8_seq(out@) + entry_lines(all, pre, i as int) == utf8_seq(old(out)@) + entry_lines(
                all,
                pre,
                0,
            ),
        decreases es@.len() - i,
    {
        let e = &es[i];
        let last = i + 1 == es.len();
        proof {
            crate::output::lemma_res_children(*e);
            assert(all[i as int] == e@);
        }
        let name = crate::paths::file_name(&e.path);
        let mut line = prefix.clone();
        append_text(&mut line, connector_text(last));
        append_text(&mut line, name.as_str());
        let ghost l = utf8_of(line);
        let ghost before = utf8_seq(out@);
        out.push(line);
        let mut child_prefix = prefix.clone();
        append_text(&mut child_prefix, indent_text(last));
        proof {
            assert(utf8_seq(out@) =~= before.push(l));
            assert(decreases_to!(es => es@[i as int].children));
        }
        let ghost middle = utf8_seq(out@);
        push_entry_lines(&e.children, &child_prefix, out);
        proof {
            let sub = entry_lines(all[i as int].children, pre + indent(last), 0);
            let rest = entry_lines(all, pre, i + 1);
            assert(entry_lines(all, pre, i as int) == seq![l] + sub + rest);
            assert(utf8_seq(out@) + rest =~= before + (seq![l] + sub + rest));
        }
        i = i + 1;
    }
}

/// Return the lines of the tree view of a resolved tree: the root, then
/// each entry behind tree glyphs, with the entries below it indented.
pub fn tree_lines(tree: &ResolvedTree) -> (r: Vec<String>)
    ensures
        utf8_seq(r@) == tree_text(utf8_of(tree.root), res_of(tree.entries@)),
{
    let mut out: Vec<String> = Vec::new();
    out.push(tree.root.clone());
    let empty = String::new();
    proof {
        assert(utf8_of(empty) =~= Seq::<u8>::empty());
        assert(utf8_seq(out@) =~= seq![utf8_of(tree.root)]);
    }
    push_entry_lines(&tree.entries, &empty, &mut out);
    out
}

/// The root shown as a directory: with a trailing `/`.
pub open spec fn root_line(root: Seq<u8>) -> Seq<u8> {
    if root.len() > 0 && root.last() == 0x2F {
        root
    } else {
        root.push(0x2F)
    }
}

/// The part of `path` below the directory `root`: what follows the root's
/// text and a separator, when there is something.
pub open spec fn below_root(root: Seq<u8>, path: Seq<u8>) -> Option<Seq<u8>> {
    let skip = if root.len() == 0 || root.last() == 0x2F {
        root.len() as int
    } else {
        root.len() + 1int
    };
    if path.len() > skip && path.subrange(0, root.len() as int) == root && (skip == root.len()
        || path[root.len() as int] == 0x2F) {
        Some(path.subrange(skip, path.len() as int))
    } else {
        None
    }
}

/// Whether an output path is not the root itself.
pub open spec fn not_root(root: Seq<u8>) -> spec_fn(Out) -> bool {
    |o: Out| o.path != root
}

/// The output paths other than the root itself.
pub open spec fn listed(outs: Seq<Out>, root: Seq<u8>) -> Seq<Out> {
    outs.filter(not_root(root))
}

/// The line of the short view for the output path `o`.
pub open spec fn short_line(o: Out, root: Seq<u8>, last: bool) -> Option<Seq<u8>> {
    match below_root(root, o.path) {
        Some(rel) => Some(
            connector(last) + rel + if o.kind == ResolvedEntryKind::Directory {
                seq![0x2Fu8]
            } else {
                seq![]
            },
        ),
        None => None,
    }
}

/// The lines of the short view for `ls[i..]`; `None` when a path is not
/// below the root.
pub open spec fn short_lines(ls: Seq<Out>, root: Seq<u8>, i: int) -> Option<Seq<Seq<u8>>>
    decreases ls.len() - i,
{
    if i < 0 || i >= ls.len() {
        Some(seq![])
    } else {
        match (short_line(ls[i], root, i + 1 == ls.len()), short_lines(ls, root, i + 1)) {
            (Some(l), Some(rest)) => Some(seq![l] + rest),
            _ => None,
        }
    }
}

/// The short view of output paths: the root as a directory, then each other
/// path relative to the root behind tree glyphs, directories marked with `/`.
pub open spec fn short_tree_text(root: Seq<u8>, outs: Seq<Out>) -> Option<Seq<Seq<u8>>> {
    match short_lines(listed(outs, root), root, 0) {
        Some(ls) => Some(seq![root_line(root)] + ls),
        None => None,
    }
}

fn copy_output(o: &OutputPath) -> (r: OutputPath)
    ensures
        r@ == o@,
{
    OutputPath { path: o.path.clone(), kind: o.kind }
}

/// The part of `path` below the directory `root`.
fn relative_below(root: &String, path: &String) -> (r: Option<String>)
    ensures
        match below_root(utf8_of(*root), utf8_of(*path)) {
            Some(rel) => r is Some && utf8_of(r->0) == rel,
            None => r is None,
        },
{
    let rb = root.as_str().as_bytes();
    let pb = path.as_str().as_bytes();
    if pb.len() <= rb.len() {
        return None;
    }
    let skip = if rb.len() == 0 || rb[rb.len() - 1] == 0x2F {
        rb.len()
    } else {
        rb.len() + 1
    };
    if pb.len() <= skip {
        return None;
    }
    let mut k: usize = 0;
    while k < rb.len()
        invariant
            k <= rb@.len(),
            rb@.len() < pb@.len(),
            rb@ == utf8_of(*root),
            pb@ == utf8_of(*path),
            skip == (if rb@.len() == 0 || rb@.last() == 0x2F {
                rb@.len() as int
            } else {
                rb@.len() + 1int
            }),
            pb@.len() > skip,
            forall|j: int| 0 <= j < k ==> rb@[j] == pb@[j],
        decreases rb@.len() - k,
    {
        if rb[k] != pb[k] {
            proof {
                assert(pb@.subrange(0, rb@.len() as int)[k as int] != rb@[k as int]);
            }
            return None;
        }
        k = k + 1;
    }
    proof {
        assert(pb@.subrange(0, rb@.len() as int) =~= rb@);
    }
    if skip != rb.len() && pb[rb.len()] != 0x2F {
        return None;
    }
    proof {
        if skip > 0 {
            if skip == rb.len() {
                assert(pb@[skip - 1] == rb@[skip - 1]);
            }
        }
    }
    Some(crate::text::substring(path.as_str(), skip, pb.len()))
}

/// Return the lines of the short tree view of a resolved tree, or `None`
/// when an output path is not below the root. The manifest and recursion
/// depth must be those the tree was resolved with.
pub fn short_tree_lines(tree: &ResolvedTree, manifest: &Manifest, recursive_depth: Option<usize>) -> (r:
    Option<Vec<String>>)
    ensures
        match short_tree_text(
            utf8_of(tree.root),
            output_spec(utf8_of(tree.root), res_of(tree.entries@), manifest@, recursive_depth, true),
        ) {
            Some(ls) => r is Some && utf8_seq(r->0@) == ls,
            None => r is None,
        },
{
    let ghost root = utf8_of(tree.root);
    let paths = output_paths(tree, manifest, recursive_depth, true);
    let ghost outs = outs_of(paths@);
    let ghost keep = not_root(root);
    let ghost so = output_spec(root, res_of(tree.entries@), manifest@, recursive_depth, true);
    let mut kept: Vec<OutputPath> = Vec::new();
    let mut i: usize = 0;
    proof {
        assert(outs.take(0) =~= Seq::<Out>::empty());
        assert(Seq::<Out>::empty().filter(keep) =~= Seq::<Out>::empty()) by {
            reveal(Seq::filter);
        }
        assert(outs_of(kept@) =~= outs.take(0).filter(keep));
    }
    while i < paths.len()
        invariant
            i <= paths@.len(),
            outs == outs_of(paths@),
            root == utf8_of(tree.root),
            keep == not_root(root),
            outs_of(kept@) == outs.take(i as int).filter(keep),
        decreases paths@.len() - i,
    {
        proof {
            assert(outs.take(i + 1) =~= outs.take(i as int).push(outs[i as int]));
            outs.take(i as int).lemma_filter_push(outs[i as int], keep);
        }
        let p = &paths[i];
        if !crate::paths::same_name(&p.path, &tree.root) {
            let ghost before = outs_of(kept@);
            kept.push(copy_output(p));
            proof {
                assert(outs_of(kept@) =~= before.push(outs[i as int]));
            }
        }
        i = i + 1;
    }
    proof {
        assert(outs.take(paths@.len() as int) =~= outs);
    }
    let ghost ls = outs_of(kept@);
    proof {
        assert(ls == listed(so, root));
    }
    let mut lines: Vec<String> = Vec::new();
    let mut top = tree.root.clone();
    let rb = tree.root.as_str().as_bytes();
    if !(rb.len() > 0 && rb[rb.len() - 1] == 0x2F) {
        push_separator(&mut top);
    }
    lines.push(top);
    proof {
        assert(utf8_seq(lines@) =~= seq![root_line(root)]);
    }
    let mut j: usize = 0;
    while j < kept.len()
        invariant
            j <= kept@.len(),
            ls == outs_of(kept@),
            root == utf8_of(tree.root),
            ls == listed(so, root),
            so == output_spec(root, res_of(tree.entries@), manifest@, recursive_depth, true),
            short_lines(ls, root, 0) matches Some(all) ==> short_lines(ls, root, j as int) matches Some(
                rest,
            ) && seq![root_line(root)] + all == utf8_seq(lines@) + rest,
            short_lines(ls, root, 0) is None ==> short_lines(ls, root, j as int) is None,
        decreases kept@.len() - j,
    {
        let o = &kept[j];
        proof {
            assert(ls[j as int] == o@);
        }
        match relative_below(&tree.root, &o.path) {
            None => {
                return None;
            },
            Some(rel) => {
                let mut line = String::new();
                proof {
                    assert(utf8_of(line) =~= Seq::<u8>::empty());
                }
                append_text(&mut line, connector_text(j + 1 == kept.len()));
                let ghost c = utf8_of(line);
                append_text(&mut line, rel.as_str());
                if o.kind == ResolvedEntryKind::Directory {
                    push_separator(&mut line);
                }
                let ghost l = utf8_of(line);
                proof {
                    assert(short_line(ls[j as int], root, j + 1 == ls.len()) == Some(l)) by {
                        if o.kind == ResolvedEntryKind::Directory {
                            assert(l =~= c + utf8_of(rel) + seq![0x2Fu8]);
                        } else {
                            assert(l =~= c + utf8_of(rel) + Seq::<u8>::empty());
                        }
                    }
                }
                let ghost before = utf8_seq(lines@);
                lines.push(line);
                proof {
                    assert(utf8_seq(lines@) =~= before.push(l));
                    match short_lines(ls, root, j + 1) {
                        Some(rest) => {
                            assert(seq![l] + rest =~= seq![l] + rest);
                            assert(before + (seq![l] + rest) =~= before.push(l) + rest);
                        },
                        None => {},
                    }
                }
            },
        }
        j = j + 1;
    }
    Some(lines)
}

} // verus!
