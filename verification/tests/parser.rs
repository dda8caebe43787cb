use fsman::parser::ParseErrorKind;
use fsman::{parse_manifest, Entry, Manifest};

const BASIC_EXAMPLE: &str = ".config {
  ghostty {
    themes {
      noctalia
    }
  }

  fish {
    config.fish
    functions {
      ff.fish
      gitar.fish
    }
  }

  micro {
    settings.json
  }

  hypr {
    **
    !AGENTS.md
  }

  uwsm {
    env
  }

  rog {
    rog-control-center.cfg
  }
}

Work {
  **
  assets {
    ***
  }
}

.vimrc
.bashrc
.hidden
";

#[test]
fn parses_the_basic_example() {
    let manifest = parse_manifest(BASIC_EXAMPLE).unwrap();

    assert_eq!(
        manifest,
        Manifest {
            entries: vec![
                Entry::Descend {
                    path: ".config".into(),
                    entries: vec![
                        Entry::Descend {
                            path: "ghostty".into(),
                            entries: vec![Entry::Descend {
                                path: "themes".into(),
                                entries: vec![Entry::Include {
                                    path: "noctalia".into(),
                                }],
                            }],
                        },
                        Entry::Descend {
                            path: "fish".into(),
                            entries: vec![
                                Entry::Include {
                                    path: "config.fish".into(),
                                },
                                Entry::Descend {
                                    path: "functions".into(),
                                    entries: vec![
                                        Entry::Include {
                                            path: "ff.fish".into(),
                                        },
                                        Entry::Include {
                                            path: "gitar.fish".into(),
                                        },
                                    ],
                                },
                            ],
                        },
                        Entry::Descend {
                            path: "micro".into(),
                            entries: vec![Entry::Include {
                                path: "settings.json".into(),
                            }],
                        },
                        Entry::Descend {
                            path: "hypr".into(),
                            entries: vec![
                                Entry::IncludeRecursive,
                                Entry::Exclude {
                                    path: "AGENTS.md".into(),
                                },
                            ],
                        },
                        Entry::Descend {
                            path: "uwsm".into(),
                            entries: vec![Entry::Include { path: "env".into() }],
                        },
                        Entry::Descend {
                            path: "rog".into(),
                            entries: vec![Entry::Include {
                                path: "rog-control-center.cfg".into(),
                            }],
                        },
                    ],
                },
                Entry::Descend {
                    path: "Work".into(),
                    entries: vec![
                        Entry::IncludeRecursive,
                        Entry::Descend {
                            path: "assets".into(),
                            entries: vec![Entry::IncludeRecursiveAll],
                        },
                    ],
                },
                Entry::Include {
                    path: ".vimrc".into(),
                },
                Entry::Include {
                    path: ".bashrc".into(),
                },
                Entry::Include {
                    path: ".hidden".into(),
                },
            ],
        }
    );
}

#[test]
fn parses_all_directives_and_names_with_spaces() {
    let manifest = parse_manifest(
        "plain file\n!excluded path\n*\n**\n***\nfolder name {\n  nested file\n}\n",
    )
    .unwrap();

    assert_eq!(
        manifest.entries,
        vec![
            Entry::Include {
                path: "plain file".into(),
            },
            Entry::Exclude {
                path: "excluded path".into(),
            },
            Entry::IncludeChildren,
            Entry::IncludeRecursive,
            Entry::IncludeRecursiveAll,
            Entry::Descend {
                path: "folder name".into(),
                entries: vec![Entry::Include {
                    path: "nested file".into(),
                }],
            },
        ]
    );
}

#[test]
fn accepts_blank_lines_tabs_crlf_and_no_final_newline() {
    let manifest = parse_manifest("\r\n\tdir {\r\n\t\tfile name\r\n\t}\r\n\r\n.hidden").unwrap();

    assert_eq!(
        manifest.entries,
        vec![
            Entry::Descend {
                path: "dir".into(),
                entries: vec![Entry::Include {
                    path: "file name".into(),
                }],
            },
            Entry::Include {
                path: ".hidden".into(),
            },
        ]
    );
}

#[test]
fn rejects_invalid_syntax() {
    for invalid in [
        "!\n",
        "!  \t\n",
        "}\n",
        "dir {\nfile\n",
        "{\n}\n",
        "!dir {\n}\n",
        "dir { file\n}\n",
        "name } trailing\n",
    ] {
        assert!(
            parse_manifest(invalid).is_err(),
            "expected parsing to fail for {invalid:?}"
        );
    }
}

#[test]
fn exposes_structured_parse_error_details() {
    let error = parse_manifest("dir {\nfile\n").unwrap_err();

    assert_eq!(error.byte_range(), 11..11);
    assert!(!error.message().is_empty());
}

#[test]
fn each_syntax_error_has_its_kind_and_position() {
    let cases = [
        ("!\n", 1, ParseErrorKind::ExpectedPath),
        ("!  \t\n", 4, ParseErrorKind::ExpectedPath),
        ("}\n", 0, ParseErrorKind::UnexpectedClosingBrace),
        ("dir {\nfile\n", 11, ParseErrorKind::ExpectedClosingBrace),
        ("{\n}\n", 0, ParseErrorKind::ExpectedPath),
        ("!dir {\n}\n", 5, ParseErrorKind::ExpectedLineEnd),
        ("dir { file\n}\n", 6, ParseErrorKind::ExpectedLineEnd),
        ("name } trailing\n", 5, ParseErrorKind::ExpectedLineEnd),
        ("dir {\n} x\n", 8, ParseErrorKind::ExpectedLineEnd),
        ("*** {\n}\n", 4, ParseErrorKind::ExpectedLineEnd),
    ];
    for (text, position, kind) in cases {
        let error = parse_manifest(text).unwrap_err();
        assert_eq!(error.position, position, "position for {text:?}");
        assert_eq!(error.kind, kind, "kind for {text:?}");
        assert_eq!(error.byte_range(), position..position);
    }
}

#[test]
fn error_messages_describe_what_was_expected() {
    assert_eq!(parse_manifest("!\n").unwrap_err().message(), "expected a path");
    assert_eq!(
        parse_manifest("a }\n").unwrap_err().message(),
        "expected the end of the line"
    );
    assert_eq!(
        parse_manifest("a {\n").unwrap_err().message(),
        "expected `}` to close the block"
    );
    assert_eq!(
        parse_manifest("}\n").unwrap_err().message(),
        "unexpected `}` outside of a block"
    );
}

#[test]
fn names_are_trimmed_and_wildcards_need_their_own_line() {
    let manifest = parse_manifest("  name with  spaces \t\n!\t excluded \n****\n*a\n").unwrap();
    assert_eq!(
        manifest.entries,
        vec![
            Entry::Include {
                path: "name with  spaces".into(),
            },
            Entry::Exclude {
                path: "excluded".into(),
            },
            Entry::Include {
                path: "****".into(),
            },
            Entry::Include { path: "*a".into() },
        ]
    );
}

#[test]
fn lone_carriage_returns_end_lines_and_blocks_nest() {
    let manifest = parse_manifest("a {\rb {\rc\r}\r}\rd").unwrap();
    assert_eq!(
        manifest.entries,
        vec![
            Entry::Descend {
                path: "a".into(),
                entries: vec![Entry::Descend {
                    path: "b".into(),
                    entries: vec![Entry::Include { path: "c".into() }],
                }],
            },
            Entry::Include { path: "d".into() },
        ]
    );
}

#[test]
fn empty_and_blank_texts_are_empty_manifests() {
    assert_eq!(parse_manifest("").unwrap().entries, vec![]);
    assert_eq!(parse_manifest(" \t\n\r\n\n").unwrap().entries, vec![]);
}

#[test]
fn non_ascii_names_are_kept_whole() {
    let manifest = parse_manifest("caf\u{e9} {\n  \u{1f600} file\n}\n").unwrap();
    assert_eq!(
        manifest.entries,
        vec![Entry::Descend {
            path: "caf\u{e9}".into(),
            entries: vec![Entry::Include {
                path: "\u{1f600} file".into(),
            }],
        }]
    );
}

#[test]
fn names_lose_unicode_white_space_at_either_end() {
    let manifest =
        parse_manifest("\u{a0}name\u{b}\n!\u{3000}gone\u{c}\nbox\u{2003}{\n  a\u{a0}b\u{85}\n}\n")
            .unwrap();
    assert_eq!(
        manifest.entries,
        vec![
            Entry::Include { path: "name".into() },
            Entry::Exclude { path: "gone".into() },
            Entry::Descend {
                path: "box".into(),
                entries: vec![Entry::Include {
                    path: "a\u{a0}b".into(),
                }],
            },
        ]
    );
    for name in ["\u{a0}name\u{b}", "\u{3000}gone\u{c}", "a\u{a0}b\u{85}"] {
        let parsed = parse_manifest(&format!("{name}\n")).unwrap();
        match &parsed.entries[0] {
            Entry::Include { path } => assert_eq!(path, name.trim()),
            other => panic!("unexpected entry: {other:?}"),
        }
    }
}

#[test]
fn a_name_of_white_space_alone_is_missing() {
    for (text, position) in [("\u{a0}\n", 2), ("\u{b}\n", 1), ("!\u{2028}\n", 4)] {
        let error = parse_manifest(text).unwrap_err();
        assert_eq!(error.kind, ParseErrorKind::ExpectedPath, "kind for {text:?}");
        assert_eq!(error.position, position, "position for {text:?}");
    }
}

#[test]
fn manifests_and_entries_clone_to_equal_values() {
    let manifest = parse_manifest("a {\n  b {\n    c\n  }\n  !d\n}\n**\n").unwrap();
    let copy = manifest.clone();
    assert_eq!(copy, manifest);
    assert_eq!(manifest.entries[0].clone(), manifest.entries[0]);
}
