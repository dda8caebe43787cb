use fsman::fs::{find_node, record_ignore_file, record_listing, record_stat};
use fsman::ignore::{parse_ignore_rules, IgnoreRule};
use fsman::{
    output_paths, parse_manifest, resolve_manifest, FsNode, FsRequest, Probe, Resolution,
    ResolveError, ResolvedEntry, ResolvedEntryKind, ResolvedTree,
};

const ROOT: &str = "/work";

/// A directory tree held in memory: files and symbolic links by their paths
/// relative to the root; directories are the paths above them.
struct Disk {
    files: Vec<&'static str>,
    links: Vec<&'static str>,
    unreadable: Vec<&'static str>,
    texts: Vec<(&'static str, &'static str)>,
}

fn disk(files: &[&'static str]) -> Disk {
    Disk {
        files: files.to_vec(),
        links: vec![],
        unreadable: vec![],
        texts: vec![],
    }
}

fn kind_at(disk: &Disk, path: &[String]) -> Option<ResolvedEntryKind> {
    if path.is_empty() {
        return Some(ResolvedEntryKind::Directory);
    }
    let joined = path.join("/");
    if disk.links.iter().any(|link| *link == joined) {
        return Some(ResolvedEntryKind::Symlink);
    }
    if disk.files.iter().any(|file| *file == joined) {
        return Some(ResolvedEntryKind::File);
    }
    let prefix = format!("{joined}/");
    if disk
        .files
        .iter()
        .chain(disk.links.iter())
        .any(|file| file.starts_with(&prefix))
    {
        return Some(ResolvedEntryKind::Directory);
    }
    None
}

fn names_in(disk: &Disk, path: &[String]) -> Vec<String> {
    let prefix = if path.is_empty() {
        String::new()
    } else {
        format!("{}/", path.join("/"))
    };
    let mut names: Vec<String> = Vec::new();
    for file in disk.files.iter().chain(disk.links.iter()) {
        if let Some(rest) = file.strip_prefix(&prefix) {
            let name = rest.split('/').next().unwrap().to_string();
            if !names.contains(&name) {
                names.push(name);
            }
        }
    }
    names.reverse();
    names
}

fn resolve_on(disk: &Disk, text: &str, depth: Option<usize>) -> Result<ResolvedTree, ResolveError> {
    resolve_with_global(disk, text, depth, "")
}

/// The text of a `.gitignore` file in the directory at `path`, if there is one.
fn ignore_text(disk: &Disk, path: &[String]) -> Option<String> {
    let mut file = path.join("/");
    if !file.is_empty() {
        file.push('/');
    }
    file.push_str(".gitignore");
    if !disk.files.contains(&file.as_str()) {
        return None;
    }
    let text = disk.texts.iter().find(|(name, _)| *name == file).map(|(_, text)| *text);
    Some(text.unwrap_or("").to_string())
}

fn resolve_with_global(
    disk: &Disk,
    text: &str,
    depth: Option<usize>,
    global_ignore: &str,
) -> Result<ResolvedTree, ResolveError> {
    let manifest = parse_manifest(text).unwrap();
    let global: Vec<IgnoreRule> = parse_ignore_rules(&global_ignore.to_string(), &Vec::new());
    let mut snapshot = FsNode::unknown();
    for _ in 0..10_000 {
        match resolve_manifest(&manifest, ROOT, depth, &global, &snapshot) {
            Resolution::Resolved(tree) => return Ok(tree),
            Resolution::Failed(error) => return Err(error),
            Resolution::NeedsInput(FsRequest::Stat(path)) => {
                let kind = kind_at(disk, &path);
                record_stat(&mut snapshot, &path, 0, Probe::Known(kind));
            }
            Resolution::NeedsInput(FsRequest::List(path)) => {
                let listing = if disk.unreadable.contains(&path.join("/").as_str()) {
                    Probe::Failed("permission denied".to_string())
                } else {
                    Probe::Known(names_in(disk, &path))
                };
                record_listing(&mut snapshot, &path, 0, listing);
            }
            Resolution::NeedsInput(FsRequest::IgnoreFile(path)) => {
                record_ignore_file(&mut snapshot, &path, 0, Probe::Known(ignore_text(disk, &path)));
            }
        }
    }
    panic!("resolution did not finish");
}

fn relative_paths(tree: &ResolvedTree) -> Vec<String> {
    fn collect(root: &str, entries: &[ResolvedEntry], paths: &mut Vec<String>) {
        for entry in entries {
            let relative = entry.path.strip_prefix(&format!("{root}/")).unwrap();
            paths.push(relative.to_string());
            collect(root, &entry.children, paths);
        }
    }

    let mut paths = Vec::new();
    collect(&tree.root, &tree.entries, &mut paths);
    paths
}

fn find<'a>(entries: &'a [ResolvedEntry], path: &str) -> &'a ResolvedEntry {
    for entry in entries {
        if entry.path == path {
            return entry;
        }
        if path.starts_with(&format!("{}/", entry.path)) {
            return find(&entry.children, path);
        }
    }
    panic!("no entry {path}");
}

#[test]
fn resolves_literals_children_and_exclusions() {
    let directory = disk(&["literal.txt", "folder/keep.txt", "folder/skip.txt"]);

    let tree = resolve_on(
        &directory,
        "literal.txt\nmissing.txt\nfolder {\n  *\n  !skip.txt\n}\n",
        None,
    )
    .unwrap();

    assert_eq!(relative_paths(&tree), ["folder", "folder/keep.txt", "literal.txt"]);
}

#[test]
fn limits_each_recursive_directive_to_the_requested_depth() {
    let directory = disk(&["one/two/three/file.txt"]);

    let tree = resolve_on(&directory, "**\n", Some(2)).unwrap();

    assert_eq!(relative_paths(&tree), ["one", "one/two"]);
}

#[test]
fn unlimited_recursion_visits_all_descendants() {
    let directory = disk(&["one/two/three/file.txt"]);

    let tree = resolve_on(&directory, "**\n", None).unwrap();

    assert_eq!(
        relative_paths(&tree),
        ["one", "one/two", "one/two/three", "one/two/three/file.txt"]
    );
}

#[test]
fn rejects_paths_that_escape_the_resolution_root() {
    let manifest = parse_manifest("../secret\n").unwrap();

    assert!(matches!(
        resolve_manifest(&manifest, ".", None, &Vec::new(), &FsNode::unknown()),
        Resolution::Failed(ResolveError::InvalidManifestPath { .. })
    ));
}

#[test]
fn rejects_absolute_paths_and_paths_that_name_nothing() {
    for (text, path) in [("/etc/passwd\n", "/etc/passwd"), ("./.\n", "./."), ("a/../b {\n}\n", "a/../b")] {
        let manifest = parse_manifest(text).unwrap();
        match resolve_manifest(&manifest, ROOT, None, &Vec::new(), &FsNode::unknown()) {
            Resolution::Failed(ResolveError::InvalidManifestPath { path: found }) => {
                assert_eq!(found, path)
            }
            other => panic!("unexpected resolution for {text:?}: {other:?}"),
        }
    }
}

#[test]
fn invalid_exclusions_fail_before_anything_is_read() {
    let manifest = parse_manifest("a\n!../x\n").unwrap();
    match resolve_manifest(&manifest, ROOT, None, &Vec::new(), &FsNode::unknown()) {
        Resolution::Failed(ResolveError::InvalidManifestPath { path }) => assert_eq!(path, "../x"),
        other => panic!("unexpected resolution: {other:?}"),
    }
}

#[test]
fn the_first_request_names_an_unknown_fact_and_recording_it_answers_it() {
    let manifest = parse_manifest("notes.txt\n").unwrap();
    let mut snapshot = FsNode::unknown();
    let first = resolve_manifest(&manifest, ROOT, None, &Vec::new(), &snapshot);
    let path = match first {
        Resolution::NeedsInput(FsRequest::Stat(path)) => path,
        other => panic!("unexpected resolution: {other:?}"),
    };
    assert_eq!(path, vec!["notes.txt".to_string()]);
    assert!(find_node(&snapshot, &path, 0).is_none());

    record_stat(&mut snapshot, &path, 0, Probe::Known(Some(ResolvedEntryKind::File)));
    assert!(matches!(
        find_node(&snapshot, &path, 0).unwrap().stat,
        Probe::Known(Some(ResolvedEntryKind::File))
    ));
    match resolve_manifest(&manifest, ROOT, None, &Vec::new(), &snapshot) {
        Resolution::Resolved(tree) => {
            assert_eq!(tree.root, ROOT);
            assert_eq!(tree.entries.len(), 1);
            assert_eq!(tree.entries[0].path, "/work/notes.txt");
            assert_eq!(tree.entries[0].kind, ResolvedEntryKind::File);
        }
        other => panic!("unexpected resolution: {other:?}"),
    }
}

#[test]
fn symbolic_links_are_selected_but_not_followed() {
    let directory = Disk {
        files: vec!["dir/a.txt"],
        links: vec!["dir/link"],
        unreadable: vec![],
        texts: vec![],
    };

    let tree = resolve_on(&directory, "**\n", None).unwrap();
    assert_eq!(relative_paths(&tree), ["dir", "dir/a.txt", "dir/link"]);
    let link = find(&tree.entries, "/work/dir/link");
    assert_eq!(link.kind, ResolvedEntryKind::Symlink);
    assert!(link.children.is_empty());

    let tree = resolve_on(&directory, "dir/link {\n  *\n}\n", None).unwrap();
    assert!(tree.entries.is_empty());

    let tree = resolve_on(&directory, "dir/link/inside\n", None).unwrap();
    assert!(tree.entries.is_empty());
}

#[test]
fn missing_literal_paths_are_ignored() {
    let directory = disk(&["folder/file.txt"]);

    let tree = resolve_on(&directory, "missing\nalso/missing\n", None).unwrap();
    assert!(tree.entries.is_empty());

    let tree = resolve_on(&directory, "missing {\n  **\n}\nfolder/file.txt\n", None).unwrap();
    assert_eq!(relative_paths(&tree), ["folder", "folder/file.txt"]);
}

#[test]
fn a_missing_path_below_an_existing_directory_selects_nothing() {
    let directory = disk(&["folder/file.txt"]);

    let tree = resolve_on(&directory, "folder/missing\n", None).unwrap();
    assert!(tree.entries.is_empty());

    let tree = resolve_on(&directory, "folder/file.txt/below\nfolder/file.txt\n", None).unwrap();
    assert_eq!(relative_paths(&tree), ["folder", "folder/file.txt"]);
}

#[test]
fn a_top_level_exclusion_reaches_into_nested_blocks() {
    let directory = disk(&["a/x", "a/y"]);

    let tree = resolve_on(&directory, "a {\n  **\n}\n!a/x\n", None).unwrap();
    assert_eq!(relative_paths(&tree), ["a", "a/y"]);

    let tree = resolve_on(&directory, "a {\n  *\n  x\n}\n!a/x\n", None).unwrap();
    assert_eq!(relative_paths(&tree), ["a", "a/y"]);
}

#[test]
fn git_aware_recursion_respects_local_and_global_git_ignores() {
    let directory = Disk {
        files: vec![".git/HEAD", ".gitignore", "local.txt", "global.txt", "keep.txt"],
        links: vec![],
        unreadable: vec![],
        texts: vec![(".gitignore", "local.txt\n")],
    };

    let tree = resolve_with_global(&directory, "**\n", None, "global.txt\n").unwrap();
    let flat: Vec<String> = output_paths(&tree, &parse_manifest("**\n").unwrap(), None, false)
        .into_iter()
        .map(|path| path.path)
        .collect();
    let text = flat.join("\n");
    assert!(text.contains("keep.txt"));
    assert!(text.contains(".gitignore"));
    assert!(!text.contains("local.txt"));
    assert!(!text.contains("global.txt"));
    assert!(!text.contains("/.git/"));
    assert!(!flat.iter().any(|path| path.ends_with("/.git")));
    assert_eq!(relative_paths(&tree), [".gitignore", "keep.txt"]);
}

#[test]
fn all_inclusive_recursion_ignores_nothing() {
    let directory = Disk {
        files: vec![".git/HEAD", ".gitignore", "local.txt", "keep.txt"],
        links: vec![],
        unreadable: vec![],
        texts: vec![(".gitignore", "local.txt\n")],
    };

    let tree = resolve_with_global(&directory, "***\n", None, "keep.txt\n").unwrap();
    assert_eq!(
        relative_paths(&tree),
        [".git", ".git/HEAD", ".gitignore", "keep.txt", "local.txt"]
    );
}

#[test]
fn nested_ignore_files_anchor_their_rules_and_negations_win_last() {
    let directory = Disk {
        files: vec![
            "src/.gitignore",
            "src/build/out.o",
            "src/main.rs",
            "src/keep.log",
            "src/debug.log",
            "build/out.o",
            "notes.txt",
        ],
        links: vec![],
        unreadable: vec![],
        texts: vec![("src/.gitignore", "/build/\n!keep.log\n")],
    };

    let tree = resolve_with_global(&directory, "**\n", None, "*.log\n").unwrap();
    assert_eq!(
        relative_paths(&tree),
        [
            "build",
            "build/out.o",
            "notes.txt",
            "src",
            "src/.gitignore",
            "src/keep.log",
            "src/main.rs",
        ]
    );
}

#[test]
fn unreadable_directories_fail_with_the_reason() {
    let directory = Disk {
        files: vec!["folder/file.txt"],
        links: vec![],
        unreadable: vec!["folder"],
        texts: vec![],
    };

    match resolve_on(&directory, "folder {\n  *\n}\n", None) {
        Err(ResolveError::ReadDirectory { path, source }) => {
            assert_eq!(path, "/work/folder");
            assert_eq!(source, "permission denied");
        }
        other => panic!("unexpected result: {other:?}"),
    }
}

#[test]
fn literal_and_block_selections_merge_into_one_entry() {
    let directory = disk(&["a/b.txt", "a/c.txt", "a/d.txt"]);

    let tree = resolve_on(&directory, "a/b.txt\na {\n  c.txt\n}\n", None).unwrap();
    assert_eq!(relative_paths(&tree), ["a", "a/b.txt", "a/c.txt"]);
}

#[test]
fn entries_are_ordered_by_name() {
    let directory = disk(&["b", "a", "c/z", "c/y", "C"]);

    let tree = resolve_on(&directory, "**\n", None).unwrap();
    assert_eq!(relative_paths(&tree), ["C", "a", "b", "c", "c/y", "c/z"]);
}

#[test]
fn exclusions_apply_at_every_level_of_a_recursive_selection() {
    let directory = disk(&["a/b/c.txt", "a/b/d.txt", "e.txt"]);

    let tree = resolve_on(&directory, "**\n!a/b/c.txt\n!e.txt\n", None).unwrap();
    assert_eq!(relative_paths(&tree), ["a", "a/b", "a/b/d.txt"]);
}

#[test]
fn a_depth_of_zero_skips_recursive_selections() {
    let directory = disk(&["a/b.txt", "c.txt"]);

    let tree = resolve_on(&directory, "**\nc.txt\n", Some(0)).unwrap();
    assert_eq!(relative_paths(&tree), ["c.txt"]);
}

#[test]
fn current_directory_components_are_skipped() {
    let directory = disk(&["a/b/c.txt"]);

    let tree = resolve_on(&directory, "./a/./b {\n  *\n}\n", None).unwrap();
    assert_eq!(relative_paths(&tree), ["a", "a/b", "a/b/c.txt"]);
}

#[test]
fn output_paths_are_the_terminal_entries() {
    let directory = disk(&["a/b/c.txt", "a/d.txt", "e.txt"]);
    let manifest = parse_manifest("**\n").unwrap();
    let tree = resolve_on(&directory, "**\n", None).unwrap();

    let paths: Vec<String> = output_paths(&tree, &manifest, None, false)
        .into_iter()
        .map(|entry| entry.path)
        .collect();
    assert_eq!(paths, ["/work/a/b/c.txt", "/work/a/d.txt", "/work/e.txt"]);
}

#[test]
fn short_output_collapses_to_the_root_for_a_complete_top_level_selection() {
    let directory = disk(&["a/b/c.txt", "e.txt"]);
    let manifest = parse_manifest("***\n").unwrap();
    let tree = resolve_on(&directory, "***\n", None).unwrap();

    let paths = output_paths(&tree, &manifest, None, true);
    assert_eq!(paths.len(), 1);
    assert_eq!(paths[0].path, ROOT);
    assert_eq!(paths[0].kind, ResolvedEntryKind::Directory);

    let limited = resolve_on(&directory, "***\n", Some(1)).unwrap();
    let paths: Vec<String> = output_paths(&limited, &manifest, Some(1), true)
        .into_iter()
        .map(|entry| entry.path)
        .collect();
    assert_eq!(paths, ["/work/a", "/work/e.txt"]);
}

#[test]
fn short_output_of_a_filtered_recursion_lists_terminal_entries() {
    let directory = disk(&["a/b/c.txt", "e.txt"]);
    let manifest = parse_manifest("**\n").unwrap();
    let tree = resolve_on(&directory, "**\n", None).unwrap();

    let short: Vec<String> = output_paths(&tree, &manifest, None, true)
        .into_iter()
        .map(|entry| entry.path)
        .collect();
    assert_eq!(short, ["/work/a/b/c.txt", "/work/e.txt"]);
}

#[test]
fn recording_a_fact_changes_no_other_fact() {
    let mut snapshot = FsNode::unknown();
    let deep = vec!["a".to_string(), "b".to_string()];
    let shallow = vec!["a".to_string()];
    record_stat(&mut snapshot, &deep, 0, Probe::Known(Some(ResolvedEntryKind::File)));
    let middle = find_node(&snapshot, &shallow, 0).unwrap();
    assert!(matches!(middle.stat, Probe::Unknown));
    assert!(matches!(middle.listing, Probe::Unknown));

    record_listing(&mut snapshot, &shallow, 0, Probe::Known(vec!["b".to_string()]));
    assert!(matches!(
        find_node(&snapshot, &deep, 0).unwrap().stat,
        Probe::Known(Some(ResolvedEntryKind::File))
    ));
    assert!(matches!(find_node(&snapshot, &shallow, 0).unwrap().stat, Probe::Unknown));
    match &find_node(&snapshot, &shallow, 0).unwrap().listing {
        Probe::Known(names) => assert_eq!(names, &vec!["b".to_string()]),
        other => panic!("unexpected listing: {other:?}"),
    }
    assert!(matches!(snapshot.stat, Probe::Unknown));
}

#[test]
fn inspection_failures_and_vanished_entries_fail_with_read_metadata() {
    let manifest = parse_manifest("secret.txt\n").unwrap();
    let mut snapshot = FsNode::unknown();
    let path = vec!["secret.txt".to_string()];
    record_stat(&mut snapshot, &path, 0, Probe::Failed("permission denied".to_string()));
    match resolve_manifest(&manifest, ROOT, None, &Vec::new(), &snapshot) {
        Resolution::Failed(ResolveError::ReadMetadata { path, source }) => {
            assert_eq!(path, "/work/secret.txt");
            assert_eq!(source, "permission denied");
        }
        other => panic!("unexpected resolution: {other:?}"),
    }

    let manifest = parse_manifest("*\n").unwrap();
    let mut snapshot = FsNode::unknown();
    match resolve_manifest(&manifest, ROOT, None, &Vec::new(), &snapshot) {
        Resolution::NeedsInput(FsRequest::List(path)) => assert!(path.is_empty()),
        other => panic!("unexpected resolution: {other:?}"),
    }
    record_listing(&mut snapshot, &vec![], 0, Probe::Known(vec!["gone.txt".to_string()]));
    record_stat(&mut snapshot, &vec!["gone.txt".to_string()], 0, Probe::Known(None));
    match resolve_manifest(&manifest, ROOT, None, &Vec::new(), &snapshot) {
        Resolution::Failed(ResolveError::ReadMetadata { path, source }) => {
            assert_eq!(path, "/work/gone.txt");
            assert_eq!(source, "entry disappeared while resolving");
        }
        other => panic!("unexpected resolution: {other:?}"),
    }
}

#[test]
fn an_unreadable_ignore_file_fails_with_its_path() {
    let manifest = parse_manifest("**\n").unwrap();
    let mut snapshot = FsNode::unknown();
    record_listing(&mut snapshot, &vec![], 0, Probe::Known(vec![]));
    match resolve_manifest(&manifest, ROOT, None, &Vec::new(), &snapshot) {
        Resolution::NeedsInput(FsRequest::IgnoreFile(path)) => assert!(path.is_empty()),
        other => panic!("unexpected resolution: {other:?}"),
    }
    record_ignore_file(&mut snapshot, &vec![], 0, Probe::Failed("permission denied".to_string()));
    match resolve_manifest(&manifest, ROOT, None, &Vec::new(), &snapshot) {
        Resolution::Failed(ResolveError::ReadMetadata { path, source }) => {
            assert_eq!(path, "/work/.gitignore");
            assert_eq!(source, "permission denied");
        }
        other => panic!("unexpected resolution: {other:?}"),
    }

    let manifest = parse_manifest("***\n").unwrap();
    assert!(matches!(
        resolve_manifest(&manifest, ROOT, None, &Vec::new(), &snapshot),
        Resolution::Resolved(_)
    ));
}

#[test]
fn where_an_exclusion_stands_does_not_matter_and_repeating_it_changes_nothing() {
    let directory = disk(&["a/x", "a/y", "b/z"]);

    let first = resolve_on(&directory, "!a/x\na {\n  **\n}\nb\n", None).unwrap();
    let middle = resolve_on(&directory, "a {\n  **\n}\n!a/x\nb\n", None).unwrap();
    let last = resolve_on(&directory, "a {\n  **\n}\nb\n!a/x\n", None).unwrap();
    let twice = resolve_on(&directory, "!a/x\na {\n  **\n}\nb\n!a/x\n", None).unwrap();
    assert_eq!(relative_paths(&first), ["a", "a/y", "b"]);
    assert_eq!(first, middle);
    assert_eq!(first, last);
    assert_eq!(first, twice);
}

#[test]
fn each_path_is_its_parent_joined_with_its_name() {
    let directory = disk(&["a/b/c.txt", "a/d.txt", "e.txt"]);

    let tree = resolve_on(&directory, "**\n", None).unwrap();
    fn check(parent: &str, entries: &[ResolvedEntry]) {
        for entry in entries {
            let name = entry.path.strip_prefix(&format!("{parent}/")).unwrap();
            assert!(!name.is_empty() && !name.contains('/'));
            check(&entry.path, &entry.children);
        }
    }
    check(&tree.root, &tree.entries);
}

#[test]
fn order_and_repetition_of_directives_do_not_change_the_selection() {
    let directory = disk(&["a/x", "a/y", "b/z", "c.txt"]);

    let forward = resolve_on(&directory, "a/x\n*\nb {\n  **\n}\n!a/y\n", None).unwrap();
    let backward = resolve_on(&directory, "!a/y\nb {\n  **\n}\n*\na/x\n", None).unwrap();
    let twice = resolve_on(
        &directory,
        "a/x\n*\nb {\n  **\n}\n!a/y\na/x\n*\nb {\n  **\n}\n!a/y\n",
        None,
    )
    .unwrap();
    assert_eq!(relative_paths(&forward), ["a", "a/x", "b", "b/z", "c.txt"]);
    assert_eq!(forward, backward);
    assert_eq!(forward, twice);
}

#[test]
fn short_output_covers_each_leaf_once() {
    let directory = disk(&["a/x", "a/y/z", "b.txt", "c/d/e"]);
    let text = "a {\n  ***\n  !x\n}\nb.txt\nc {\n  ***\n}\n";
    let manifest = parse_manifest(text).unwrap();
    let tree = resolve_on(&directory, text, None).unwrap();
    let short: Vec<String> = output_paths(&tree, &manifest, None, true)
        .into_iter()
        .map(|path| path.path)
        .collect();
    let full: Vec<String> = output_paths(&tree, &manifest, None, false)
        .into_iter()
        .map(|path| path.path)
        .collect();
    assert!(short.len() <= full.len());
    for (i, p) in short.iter().enumerate() {
        for (j, q) in short.iter().enumerate() {
            if i != j {
                assert!(!q.starts_with(&format!("{p}/")), "{q} lies below {p}");
            }
        }
    }
    for leaf in &full {
        let covering = short
            .iter()
            .filter(|p| *p == leaf || leaf.starts_with(&format!("{p}/")))
            .count();
        assert_eq!(covering, 1, "{leaf}");
    }
}
