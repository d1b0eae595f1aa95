use helix_vcs::bytes_split::split_double_slash;
use helix_vcs::file_change::{entry_to_change, make_pathbuf, FileChange};
use helix_vcs::head_name::extract_head_name;

#[test]
fn test_split_double_slash_no_newline() {
    let input = b"modified // test.rs // file // test.rs // file //\n";
    let expected = [
        "modified".as_bytes(),
        "test.rs".as_bytes(),
        "file".as_bytes(),
        "test.rs".as_bytes(),
        "file //\n".as_bytes(), // Not trimmed since we're not splitting on newlines
    ];

    let result = split_double_slash(input, false);

    assert_eq!(result, expected);
}

#[test]
fn test_split_double_slash_with_newline() {
    let input = "modified // test.rs // file // test.rs // file //\nmodified // test.rs // file // test.rs // file //\n"
        .as_bytes();
    let expected = [
        "modified // test.rs // file // test.rs // file".as_bytes(),
        "modified // test.rs // file // test.rs // file".as_bytes(),
        // We expect an empty slice after the last split
        &[],
    ];

    let result = split_double_slash(input, true);

    assert_eq!(result, expected);
}

#[test]
fn test_entry_to_change() {
    let p = "helix-vcs/src/lib.rs";
    let pb = make_pathbuf(p.as_bytes());

    let entry = |kind: &str, (t1, t2): (&str, &str)| {
        entry_to_change(format!("{kind} // {p} // {t1} // {p} // {t2}").as_bytes())
    };

    for types in [
        ("conflict", "file"),
        ("conflict", "symlink"),
        ("file", "file"),
        ("file", "symlink"),
        ("symlink", "file"),
        ("symlink", "symlink"),
    ] {
        assert_eq!(
            entry("modified", types).unwrap(),
            FileChange::Modified { path: pb.clone() }
        );
    }

    for types in [("", "file"), ("", "symlink")] {
        assert_eq!(
            entry("added", types).unwrap(),
            FileChange::Untracked { path: pb.clone() }
        );
    }

    for types in [
        ("file", "file"),
        ("file", "symlink"),
        ("symlink", "file"),
        ("symlink", "symlink"),
    ] {
        assert_eq!(
            entry("copied", types).unwrap(),
            FileChange::Untracked { path: pb.clone() }
        );
    }

    for types in [("conflict", ""), ("file", ""), ("symlink", "")] {
        assert_eq!(
            entry("removed", types).unwrap(),
            FileChange::Deleted { path: pb.clone() }
        );
    }

    for types in [
        ("", "conflict"),
        ("conflict", "conflict"),
        ("file", "conflict"),
        ("symlink", "conflict"),
    ] {
        assert_eq!(
            entry("conflict", types).unwrap(),
            FileChange::Conflict { path: pb.clone() }
        );
    }

    for invalid_kind in ["invalid", ""] {
        assert_eq!(entry(invalid_kind, ("file", "file")), None);
    }

    for invalid_types in [
        ("tree", "file"),
        ("submodule", "file"),
        ("abcdef", "file"),
        ("file", "tree"),
        ("file", "submodule"),
        ("file", "abcdef"),
    ] {
        assert_eq!(entry("modified", invalid_types), None);
    }
}

#[test]
fn test_extract_head_name() {
    // No bookmarks.
    let result = extract_head_name("abcdefgh \nijklmnop \n").unwrap();
    assert_eq!(result, "abcdefgh");

    // Single exact bookmark.
    let result = extract_head_name("abcdefgh bookmark*\nijklmnop other-bookmark*\n").unwrap();
    assert_eq!(result, "abcdefgh (bookmark*)");

    // Multiple exact bookmarks.
    let result = extract_head_name("abcdefgh bookmark bookmark-v2\nijklmnop other-ookmark\n").unwrap();
    assert_eq!(result, "abcdefgh (bookmark bookmark-v2)");

    // Single inexact bookmark.
    let result = extract_head_name("abcdefgh \nijklmnop other-bookmark\n").unwrap();
    assert_eq!(result, "abcdefgh [other-bookmark]");

    // Multiple inexact bookmarks.
    let result = extract_head_name("abcdefgh \nijklmnop bookmark* bookmark-v2\n").unwrap();
    assert_eq!(result, "abcdefgh [bookmark* bookmark-v2]");
}
