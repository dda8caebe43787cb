use fsman::cli::{
    formatted_output_path, invalid_depth_text, kind_name, parse_arguments, parse_depth,
    short_tree_lines, tree_lines, ArgumentError, Command,
};
use fsman::resolver::invalid_path_text;
use fsman::ResolveError;
use fsman::fs::{record_ignore_file, record_listing, record_stat};
use fsman::{
    output_paths, parse_manifest, resolve_manifest, FsNode, FsRequest, Manifest, OutputPath, Probe,
    Resolution, ResolvedEntryKind, ResolvedTree,
};

const ROOT: &str = "/home/user";

fn kind_at(files: &[&str], path: &[String]) -> Option<ResolvedEntryKind> {
    if path.is_empty() {
        return Some(ResolvedEntryKind::Directory);
    }
    let joined = path.join("/");
    if files.iter().any(|file| *file == joined) {
        return Some(ResolvedEntryKind::File);
    }
    let prefix = format!("{joined}/");
    if files.iter().any(|file| file.starts_with(&prefix)) {
        return Some(ResolvedEntryKind::Directory);
    }
    None
}

fn names_in(files: &[&str], path: &[String]) -> Vec<String> {
    let prefix = if path.is_empty() {
        String::new()
    } else {
        format!("{}/", path.join("/"))
    };
    let mut names: Vec<String> = Vec::new();
    for file in files {
        if let Some(rest) = file.strip_prefix(&prefix) {
            let name = rest.split('/').next().unwrap().to_string();
            if !names.contains(&name) {
                names.push(name);
            }
        }
    }
    names
}

fn resolve_on(files: &[&str], text: &str, depth: Option<usize>) -> (Manifest, ResolvedTree) {
    let manifest = parse_manifest(text).unwrap();
    let mut snapshot = FsNode::unknown();
    for _ in 0..10_000 {
        match resolve_manifest(&manifest, ROOT, depth, &Vec::new(), &snapshot) {
            Resolution::Resolved(tree) => return (manifest, tree),
            Resolution::Failed(error) => panic!("resolution failed: {error:?}"),
            Resolution::NeedsInput(FsRequest::Stat(path)) => {
                let kind = kind_at(files, &path);
                record_stat(&mut snapshot, &path, 0, Probe::Known(kind));
            }
            Resolution::NeedsInput(FsRequest::List(path)) => {
                let names = names_in(files, &path);
                record_listing(&mut snapshot, &path, 0, Probe::Known(names));
            }
            Resolution::NeedsInput(FsRequest::IgnoreFile(path)) => {
                record_ignore_file(&mut snapshot, &path, 0, Probe::Known(None));
            }
        }
    }
    panic!("resolution did not finish");
}

fn text_of(lines: &[String]) -> String {
    let mut text = String::new();
    for line in lines {
        text.push_str(line);
        text.push('\n');
    }
    text
}

fn args(values: &[&str]) -> Vec<String> {
    values.iter().map(|value| value.to_string()).collect()
}

#[test]
fn requires_exactly_one_file() {
    assert_eq!(parse_arguments(&args(&[])), Err(ArgumentError::Usage));
    assert_eq!(parse_arguments(&args(&["a.fsman", "b.fsman"])), Err(ArgumentError::Usage));
    assert!(ArgumentError::Usage
        .message()
        .starts_with("usage: fsman-cli <FILE>"));
}

#[test]
fn a_lone_file_or_validate_asks_for_validation() {
    assert_eq!(
        parse_arguments(&args(&["basic.fsman"])),
        Ok(Command::Validate {
            manifest_path: "basic.fsman".into()
        })
    );
    assert_eq!(
        parse_arguments(&args(&["validate", "basic.fsman"])),
        Ok(Command::Validate {
            manifest_path: "basic.fsman".into()
        })
    );
    assert_eq!(parse_arguments(&args(&["validate"])), Err(ArgumentError::Usage));
}

#[test]
fn resolve_reads_each_option_once() {
    assert_eq!(
        parse_arguments(&args(&[
            "resolve", "m.fsman", "--flat", "--depth", "+3", "--cwd", "/tmp", "--json", "--short"
        ])),
        Ok(Command::Resolve {
            manifest_path: "m.fsman".into(),
            cwd: Some("/tmp".into()),
            depth: Some(3),
            short: true,
            json: true,
            flat: true,
        })
    );
    assert_eq!(
        parse_arguments(&args(&["resolve", "m.fsman"])),
        Ok(Command::Resolve {
            manifest_path: "m.fsman".into(),
            cwd: None,
            depth: None,
            short: false,
            json: false,
            flat: false,
        })
    );
    assert_eq!(
        parse_arguments(&args(&["resolve", "m.fsman", "--short", "--short"])),
        Err(ArgumentError::Usage)
    );
    assert_eq!(
        parse_arguments(&args(&["resolve", "m.fsman", "--cwd"])),
        Err(ArgumentError::Usage)
    );
    assert_eq!(
        parse_arguments(&args(&["resolve", "m.fsman", "--verbose"])),
        Err(ArgumentError::Usage)
    );
    assert_eq!(parse_arguments(&args(&["resolve"])), Err(ArgumentError::Usage));
}

#[test]
fn rejects_an_invalid_depth() {
    assert_eq!(
        parse_arguments(&args(&["resolve", "basic.fsman", "--depth", "all"])),
        Err(ArgumentError::InvalidDepth {
            value: "all".into()
        })
    );
    let error = parse_arguments(&args(&["resolve", "basic.fsman", "--depth", "all"])).unwrap_err();
    assert!(error.message().contains("invalid depth"));
}

#[test]
fn error_texts_quote_what_was_given() {
    assert_eq!(
        ArgumentError::InvalidDepth { value: "all".into() }.message(),
        "invalid depth \"all\": expected a non-negative integer"
    );
    assert_eq!(
        invalid_depth_text("<x>"),
        "invalid depth <x>: expected a non-negative integer"
    );
    assert_eq!(
        ArgumentError::Usage.message(),
        "usage: fsman-cli <FILE>\n       fsman-cli validate <FILE>\n       fsman-cli resolve <FILE> [--cwd <DIRECTORY>] [--depth <LEVELS>] [--short] [--json] [--flat]"
    );
    assert_eq!(
        ResolveError::InvalidManifestPath { path: "../a\"b".into() }.message(),
        "manifest path \"../a\\\"b\" must be relative and must not contain `..`"
    );
    assert_eq!(
        invalid_path_text("<p>"),
        "manifest path <p> must be relative and must not contain `..`"
    );
    assert_eq!(
        ResolveError::ReadDirectory { path: "/d".into(), source: "denied".into() }.message(),
        "could not read directory /d: denied"
    );
    assert_eq!(
        ResolveError::ReadMetadata { path: "/f".into(), source: "gone".into() }.message(),
        "could not inspect /f: gone"
    );
}

#[test]
fn depths_are_non_negative_integers_that_fit() {
    assert_eq!(parse_depth("0"), Some(0));
    assert_eq!(parse_depth("007"), Some(7));
    assert_eq!(parse_depth("+12"), Some(12));
    assert_eq!(parse_depth(""), None);
    assert_eq!(parse_depth("+"), None);
    assert_eq!(parse_depth("-1"), None);
    assert_eq!(parse_depth("1.5"), None);
    assert_eq!(parse_depth(" 1"), None);
    assert_eq!(parse_depth(&usize::MAX.to_string()), Some(usize::MAX));
    assert_eq!(parse_depth(&format!("{}0", usize::MAX)), None);
    assert_eq!(parse_depth("99999999999999999999999999"), None);
}

#[test]
fn kinds_have_names() {
    assert_eq!(kind_name(ResolvedEntryKind::File), "file");
    assert_eq!(kind_name(ResolvedEntryKind::Directory), "directory");
    assert_eq!(kind_name(ResolvedEntryKind::Symlink), "symlink");
    assert_eq!(kind_name(ResolvedEntryKind::Other), "other");
}

#[test]
fn directories_are_formatted_with_one_trailing_separator() {
    let directory = OutputPath {
        path: "/a/b".into(),
        kind: ResolvedEntryKind::Directory,
    };
    let root = OutputPath {
        path: "/".into(),
        kind: ResolvedEntryKind::Directory,
    };
    let file = OutputPath {
        path: "/a/c".into(),
        kind: ResolvedEntryKind::File,
    };
    assert_eq!(formatted_output_path(&directory), "/a/b/");
    assert_eq!(formatted_output_path(&root), "/");
    assert_eq!(formatted_output_path(&file), "/a/c");
}

#[test]
fn resolves_a_manifest_as_a_tree() {
    let files = [
        "config/one.txt",
        "config/nested/two.txt",
        "config/skip.txt",
        "selection.fsman",
    ];
    let (_, tree) = resolve_on(&files, "config {\n  **\n  !skip.txt\n}\n", None);

    assert_eq!(
        text_of(&tree_lines(&tree)),
        format!(
            "{}\n\u{2514}\u{2500}\u{2500} config\n    \u{251c}\u{2500}\u{2500} nested\n    \u{2502}   \u{2514}\u{2500}\u{2500} two.txt\n    \u{2514}\u{2500}\u{2500} one.txt\n",
            ROOT
        )
    );
}

#[test]
fn limits_recursive_resolution_depth() {
    let files = ["one/two/three.txt", "selection.fsman"];
    let (_, tree) = resolve_on(&files, "**\n!selection.fsman\n", Some(2));

    assert_eq!(
        text_of(&tree_lines(&tree)),
        format!(
            "{}\n\u{2514}\u{2500}\u{2500} one\n    \u{2514}\u{2500}\u{2500} two\n",
            ROOT
        )
    );
}

#[test]
fn short_output_collapses_a_complete_recursive_selection() {
    let files = [
        ".config/hypr/hyprland.conf",
        ".config/hypr/nested/rules.conf",
        "selection.fsman",
    ];
    let (manifest, tree) = resolve_on(&files, ".config {\n  hypr {\n    ***\n  }\n}\n", None);

    assert_eq!(
        text_of(&short_tree_lines(&tree, &manifest, None).unwrap()),
        format!("{}/\n\u{2514}\u{2500}\u{2500} .config/hypr/\n", ROOT)
    );
}

#[test]
fn short_output_lists_immediate_paths_when_recursion_has_an_exclusion() {
    let files = [
        ".config/hypr/AGENTS.md",
        ".config/hypr/hyprland.conf",
        ".config/hypr/nested/rules.conf",
        "selection.fsman",
    ];
    let (manifest, tree) = resolve_on(
        &files,
        ".config {\n  hypr {\n    ***\n    !AGENTS.md\n  }\n}\n",
        None,
    );

    assert_eq!(
        text_of(&short_tree_lines(&tree, &manifest, None).unwrap()),
        format!(
            "{}/\n\u{251c}\u{2500}\u{2500} .config/hypr/hyprland.conf\n\u{2514}\u{2500}\u{2500} .config/hypr/nested/\n",
            ROOT
        )
    );
}

#[test]
fn short_output_keeps_a_depth_limited_selection_expanded() {
    let files = [".config/hypr/one/two/rules.conf", "selection.fsman"];
    let (manifest, tree) = resolve_on(&files, ".config {\n  hypr {\n    ***\n  }\n}\n", Some(1));

    assert_eq!(
        text_of(&short_tree_lines(&tree, &manifest, Some(1)).unwrap()),
        format!("{}/\n\u{2514}\u{2500}\u{2500} .config/hypr/one/\n", ROOT)
    );
}

#[test]
fn flat_output_prints_compact_absolute_paths_without_tree_glyphs() {
    let files = [
        ".config/hypr/AGENTS.md",
        ".config/hypr/hyprland.conf",
        ".config/hypr/nested/rules.conf",
        "selection.fsman",
    ];
    let (manifest, tree) = resolve_on(
        &files,
        ".config {\n  hypr {\n    ***\n    !AGENTS.md\n  }\n}\n",
        None,
    );

    let lines: Vec<String> = output_paths(&tree, &manifest, None, true)
        .iter()
        .map(formatted_output_path)
        .collect();
    assert_eq!(
        text_of(&lines),
        format!("{0}/.config/hypr/hyprland.conf\n{0}/.config/hypr/nested/\n", ROOT)
    );
}

#[test]
fn a_collapsed_root_has_no_lines_below_it() {
    let files = ["a.txt", "b/c.txt"];
    let (manifest, tree) = resolve_on(&files, "***\n", None);

    assert_eq!(
        text_of(&short_tree_lines(&tree, &manifest, None).unwrap()),
        format!("{}/\n", ROOT)
    );
}

#[test]
fn short_lines_refuse_paths_outside_the_root() {
    let manifest = parse_manifest("*\n").unwrap();
    let tree = ResolvedTree {
        root: "/a".into(),
        entries: vec![fsman::ResolvedEntry {
            path: "/b/c".into(),
            kind: ResolvedEntryKind::File,
            children: vec![],
        }],
    };
    assert!(short_tree_lines(&tree, &manifest, None).is_none());
}
