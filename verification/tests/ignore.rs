use ragfs_git::enumerate::prune_path;
use ragfs_git::error::GitError;
use ragfs_git::ignore::{
    should_track_path, track_decision, IgnoreMatcher, OVGITIGNORE_MAX_BYTES, OVGITIGNORE_PATH,
};

fn matcher(src: &str) -> IgnoreMatcher {
    IgnoreMatcher::parse(src.as_bytes()).expect("ignore file parses")
}

#[test]
fn empty_comments_and_blank_lines_match_nothing() {
    let m = matcher("\n  \n# comment\n   # indented comment\n");
    assert!(!m.is_ignored("resources/a.log"));
    assert!(should_track_path("resources/a.log", &m));
}

#[test]
fn basename_glob_matches_at_any_depth() {
    let m = matcher("*.log\n");
    assert!(m.is_ignored("resources/a.log"));
    assert!(m.is_ignored("resources/proj/nested/a.log"));
    assert!(!m.is_ignored("resources/a.md"));
}

#[test]
fn double_star_glob_matches_nested_paths() {
    let m = matcher("**/*.bak\n");
    assert!(m.is_ignored("a.bak"));
    assert!(m.is_ignored("resources/proj/a.bak"));
    assert!(!m.is_ignored("resources/proj/a.md"));
}

#[test]
fn root_relative_patterns_match_from_account_root() {
    let m = matcher("resources/tmp/**\n/resources/cache/**\n");
    assert!(m.is_ignored("resources/tmp/a.txt"));
    assert!(m.is_ignored("resources/tmp/nested/a.txt"));
    assert!(m.is_ignored("resources/cache/a.txt"));
    assert!(!m.is_ignored("user/default/resources/tmp/a.txt"));
}

#[test]
fn directory_patterns_match_directory_contents() {
    let m = matcher("tmp/\n/cache/\n");
    assert!(m.is_ignored("resources/tmp/a.txt"));
    assert!(m.is_ignored("tmp/a.txt"));
    assert!(m.is_ignored("cache/a.txt"));
    assert!(!m.is_ignored("resources/cache/a.txt"));
}

#[test]
fn ovgitignore_is_always_tracked() {
    let m = matcher("*\n.ovgitignore\n");
    assert!(m.is_ignored("resources/a.md"));
    assert!(should_track_path(OVGITIGNORE_PATH, &m));
}

#[test]
fn system_prune_still_wins() {
    let m = IgnoreMatcher::empty();
    assert!(!should_track_path("_system/state.json", &m));
    assert!(!should_track_path("resources/index.faiss", &m));
    assert!(!should_track_path("resources/embedding_cache/a.bin", &m));
}

#[test]
fn negation_is_rejected() {
    let err = IgnoreMatcher::parse(b"!keep.log\n").unwrap_err();
    assert!(matches!(err, GitError::InvalidIgnoreFile { .. }));
    assert!(err.message().contains("negation"));
}

#[test]
fn non_utf8_is_rejected() {
    let err = IgnoreMatcher::parse(&[0xff, 0xfe]).unwrap_err();
    assert!(matches!(err, GitError::InvalidIgnoreFile { .. }));
    assert!(err.message().contains("UTF-8"));
}

#[test]
fn oversized_file_is_rejected() {
    let bytes = vec![b'a'; OVGITIGNORE_MAX_BYTES + 1];
    let err = IgnoreMatcher::parse(&bytes).unwrap_err();
    assert!(matches!(err, GitError::IgnoreFileTooLarge { .. }));
}

fn invalid(reason: String) -> GitError {
    GitError::InvalidIgnoreFile { path: ".ovgitignore".to_string(), reason }
}

#[test]
fn the_file_may_hold_exactly_the_limit() {
    assert!(IgnoreMatcher::parse(&vec![b'a'; OVGITIGNORE_MAX_BYTES]).is_ok());
    assert_eq!(
        IgnoreMatcher::parse(&vec![b'a'; OVGITIGNORE_MAX_BYTES + 7]).unwrap_err(),
        GitError::IgnoreFileTooLarge { path: ".ovgitignore".to_string(), size: 65543, max: 65536 }
    );
}

#[test]
fn the_reason_says_what_is_not_utf8() {
    let bytes = b"ok\n\xff";
    let shown = std::str::from_utf8(bytes).unwrap_err();
    assert_eq!(IgnoreMatcher::parse(bytes).unwrap_err(), invalid(format!("must be UTF-8: {shown}")));
}

#[test]
fn the_reason_names_the_line_of_a_negation() {
    assert_eq!(
        IgnoreMatcher::parse(b"*.log\r\n# x\n  !keep.log \n!other\n").unwrap_err(),
        invalid("line 3 uses unsupported negation: !keep.log".to_string())
    );
}

#[test]
fn the_reason_names_the_line_of_a_bad_pattern() {
    let mut builder = ignore::gitignore::GitignoreBuilder::new("");
    let shown = builder.add_line(None, "a{b").unwrap_err().to_string();
    assert_eq!(
        IgnoreMatcher::parse(b"*.log\n\n\ta{b\n").unwrap_err(),
        invalid(format!("line 3 is invalid: {shown}"))
    );
}

#[test]
fn slashes_around_a_path_do_not_count() {
    let m = matcher("*.log\n");
    assert!(m.is_ignored("//resources/a.log//"));
    assert!(!m.is_ignored("//"));
    assert!(!m.is_ignored("/.ovgitignore"));
    assert!(!IgnoreMatcher::default().is_ignored("a.log"));
}

#[test]
fn no_pattern_brings_back_what_the_runtime_keeps() {
    let m = matcher("*.log\n");
    for path in [
        "_system/state.json", "tasks/t", "temp/t", "queue/q", "upload/u", "upload",
        "resources/.path.ovlock", "resources/.path.ovlock/x", "resources/x.faiss", "x.index",
        "resources/embedding_cache/a.bin",
    ] {
        assert!(prune_path(path), "{path}");
        assert!(!should_track_path(path, &m), "{path}");
        assert!(!track_decision(path, false), "{path}");
    }
    for path in ["resources/_system/x", "embedding_cache", "resources/x.faiss.md", "temporary/x"] {
        assert!(!prune_path(path), "{path}");
        assert!(should_track_path(path, &m), "{path}");
        assert!(!track_decision(path, true), "{path}");
    }
}

#[test]
fn added_lines_never_take_a_path_back() {
    let files = ["a.log", "dir/b.tmp", "dir/c.md", "build/out", "keep"];
    let excluded = |m: &IgnoreMatcher| -> Vec<&str> {
        files.into_iter().filter(|p| m.is_ignored(p)).collect()
    };
    let short = "*.log\nbuild/";
    assert_eq!(excluded(&matcher(short)), vec!["a.log", "build/out"]);
    for added in ["*.tmp", "*", "keep\n\n# x\n", "/a.log"] {
        let longer = matcher(&format!("{short}\n{added}"));
        for path in excluded(&matcher(short)) {
            assert!(longer.is_ignored(path), "{added} {path}");
        }
    }
    for added in ["", "# *.tmp", "\n  \t\n#x\n"] {
        let longer = matcher(&format!("{short}\n{added}"));
        assert_eq!(excluded(&longer), excluded(&matcher(short)), "{added:?}");
    }
    assert_eq!(excluded(&matcher(&format!("{short}\n*.tmp"))), vec!["a.log", "dir/b.tmp", "build/out"]);
}

#[test]
fn what_lies_below_an_excluded_path_is_excluded() {
    let m = matcher("build\n*.d\n/docs/draft\n");
    for (path, inner) in [
        ("build", "build/x/y"),
        ("a/build", "a/build/x"),
        ("conf.d", "conf.d/one"),
        ("docs/draft", "docs/draft/1/2/3"),
        ("/build/", "build/x"),
        ("./build", "./build/x"),
        ("a//build", "a//build/./x/."),
        ("build", "build/.."),
    ] {
        assert!(m.is_ignored(path), "{path}");
        assert!(m.is_ignored(inner), "{inner}");
        assert!(!should_track_path(inner, &m), "{inner}");
    }
    assert!(!m.is_ignored("other/docs/draft/x"));
    // A dot names nothing below the path.
    assert!(!m.is_ignored("build/."));
}

#[test]
fn a_copy_of_a_matcher_excludes_the_same() {
    let m = matcher("*.log\nbuild/\n");
    let copy = m.clone();
    for path in ["a.log", "build/x", "a.md"] {
        assert_eq!(copy.is_ignored(path), m.is_ignored(path), "{path}");
    }
    assert!(!IgnoreMatcher::empty().clone().is_ignored("a.log"));
}

#[test]
fn patterns_that_cannot_be_compiled_are_rejected_as_a_whole() {
    // Each line parses; together they are nested deeper than the compiler takes.
    let deep = |inner: &str| format!("{}{inner}{}", "{".repeat(300), "}".repeat(300));
    let src = format!("ok\n{}.c\n{}.d\n", deep("a"), deep("b"));
    match IgnoreMatcher::parse(src.as_bytes()).unwrap_err() {
        GitError::InvalidIgnoreFile { path, reason } => {
            assert_eq!(path, OVGITIGNORE_PATH);
            assert!(!reason.starts_with("line "), "{reason}");
        }
        other => panic!("expected InvalidIgnoreFile, got {other:?}"),
    }
    // Braces without content leave nothing to compile, however deep they are.
    let m = matcher(&format!("a{}", deep("")));
    assert!(m.is_ignored("dir/a"));
    assert!(!m.is_ignored("dir/b"));
}
