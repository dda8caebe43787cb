use fsman::ignore::{append_rules, is_ignored, parse_ignore_rules};

fn path(components: &[&str]) -> Vec<String> {
    components.iter().map(|component| component.to_string()).collect()
}

#[test]
fn comments_blank_lines_and_trailing_spaces_are_dropped() {
    let rules = parse_ignore_rules(
        &"# comment\n\n!keep.log\n/build/\n*.o  \r\ndocs/**/*.md\n".to_string(),
        &path(&["src"]),
    );
    assert_eq!(rules.len(), 4);

    assert!(rules[0].negate);
    assert!(!rules[0].dir_only);
    assert!(!rules[0].anchored);
    assert_eq!(rules[0].pattern, vec![b"keep.log".to_vec()]);

    assert!(!rules[1].negate);
    assert!(rules[1].dir_only);
    assert!(rules[1].anchored);
    assert_eq!(rules[1].pattern, vec![b"build".to_vec()]);

    assert_eq!(rules[2].pattern, vec![b"*.o".to_vec()]);
    assert!(!rules[2].anchored);

    assert!(rules[3].anchored);
    assert_eq!(
        rules[3].pattern,
        vec![b"docs".to_vec(), b"**".to_vec(), b"*.md".to_vec()]
    );
    for rule in &rules {
        assert_eq!(rule.base, path(&["src"]));
    }
}

#[test]
fn unanchored_rules_match_names_at_any_depth_below_their_directory() {
    let rules = parse_ignore_rules(&"*.o\n".to_string(), &path(&["src"]));
    assert!(is_ignored(&rules, &path(&["src", "a.o"]), false));
    assert!(is_ignored(&rules, &path(&["src", "deep", "b.o"]), false));
    assert!(!is_ignored(&rules, &path(&["c.o"]), false));
    assert!(!is_ignored(&rules, &path(&["src", "a.c"]), false));
}

#[test]
fn anchored_rules_match_the_whole_path_below_their_directory() {
    let rules = parse_ignore_rules(&"/build/\ndocs/**/*.md\nx?z\n".to_string(), &vec![]);
    assert!(is_ignored(&rules, &path(&["build"]), true));
    assert!(!is_ignored(&rules, &path(&["build"]), false));
    assert!(!is_ignored(&rules, &path(&["src", "build"]), true));
    assert!(is_ignored(&rules, &path(&["docs", "a.md"]), false));
    assert!(is_ignored(&rules, &path(&["docs", "x", "y", "a.md"]), false));
    assert!(!is_ignored(&rules, &path(&["docs", "a.txt"]), false));
    assert!(is_ignored(&rules, &path(&["xyz"]), false));
    assert!(!is_ignored(&rules, &path(&["xz"]), false));
}

#[test]
fn the_last_matching_rule_decides() {
    let global = parse_ignore_rules(&"*.log\n".to_string(), &vec![]);
    let local = parse_ignore_rules(&"!keep.log\n".to_string(), &vec![]);
    let rules = append_rules(&global, local);
    assert_eq!(rules.len(), 2);
    assert!(is_ignored(&rules, &path(&["debug.log"]), false));
    assert!(!is_ignored(&rules, &path(&["keep.log"]), false));
    assert!(!is_ignored(&vec![], &path(&["debug.log"]), false));
}
