use helix_vcs::bytes_split::split_double_slash;
use helix_vcs::diff_base::diff_base_from_show;
use helix_vcs::file_change::{
    bytes_eq, changed_files, conflicted_files, entry_to_change, make_pathbuf, FileChange, RepoPath,
};
use helix_vcs::head_name::{char_is_white_space, extract_head_name, head_name_from_log, HeadNameError};

fn path(s: &str) -> RepoPath {
    make_pathbuf(s.as_bytes())
}

#[test]
fn split_rejoins_to_input() {
    let inputs: [&[u8]; 5] = [
        b"",
        b"a // b // c",
        b" // // ",
        b"x //\ny //\n",
        b"a ///// b",
    ];
    for input in inputs {
        for with_newline in [false, true] {
            let sep: &[u8] = if with_newline { b" //\n" } else { b" // " };
            let pieces = split_double_slash(input, with_newline);
            assert!(!pieces.is_empty());
            assert_eq!(pieces.join(sep), input.to_vec());
            for piece in &pieces {
                assert!(!piece.windows(4).any(|w| w == sep));
            }
        }
    }
}

#[test]
fn split_without_separator_is_one_piece() {
    assert_eq!(split_double_slash(b"no separator here", false), vec![b"no separator here".as_slice()]);
    assert_eq!(split_double_slash(b"", true), vec![b"".as_slice()]);
}

#[test]
fn split_takes_occurrences_from_the_left() {
    // " // // " holds the separator at 0 and, overlapping, at 3; the left one is taken.
    assert_eq!(split_double_slash(b" // // x", false), vec![b"".as_slice(), b"// x".as_slice()]);
}

#[test]
fn make_pathbuf_keeps_every_byte() {
    let bytes: &[u8] = &[b'a', 0xff, b'/', 0, b'z'];
    assert_eq!(make_pathbuf(bytes).as_bytes(), bytes);
    assert_eq!(make_pathbuf(b"").as_bytes(), b"");
}

#[test]
fn bytes_eq_compares_contents() {
    assert!(bytes_eq(b"file", b"file"));
    assert!(!bytes_eq(b"file", b"files"));
    assert!(!bytes_eq(b"file", b"fila"));
    assert!(bytes_eq(b"", b""));
}

#[test]
fn entry_renamed_uses_both_paths() {
    let change = entry_to_change(b"renamed // old.nix // file // new.nix // file").unwrap();
    assert_eq!(change, FileChange::Renamed { from_path: path("old.nix"), to_path: path("new.nix") });
}

#[test]
fn entry_with_added_target_type_conflict() {
    let change = entry_to_change(b"added // added file.rs //  // added file.rs // symlink").unwrap();
    assert_eq!(change, FileChange::Untracked { path: path("added file.rs") });
    let change = entry_to_change(b"modified // conflict.txt // conflict // conflict.txt // file").unwrap();
    assert_eq!(change, FileChange::Modified { path: path("conflict.txt") });
}

#[test]
fn entry_conflicted_target_wins_over_any_status() {
    for kind in ["modified", "renamed", "bogus", ""] {
        let entry = format!("{kind} // a // tree // b // conflict");
        assert_eq!(entry_to_change(entry.as_bytes()), Some(FileChange::Conflict { path: path("b") }));
    }
}

#[test]
fn entry_with_too_few_sections_is_dropped() {
    assert_eq!(entry_to_change(b""), None);
    assert_eq!(entry_to_change(b"modified // a // file // a"), None);
}

#[test]
fn entry_extra_sections_are_ignored() {
    let change = entry_to_change(b"removed // a // file // a //  // extra").unwrap();
    assert_eq!(change, FileChange::Deleted { path: path("a") });
}

#[test]
fn entry_of_sections_round_trip() {
    // Sections holding single slashes are recovered exactly.
    let change = entry_to_change(b"renamed // dir/a b // symlink // dir/sub/c // file").unwrap();
    assert_eq!(change, FileChange::Renamed { from_path: path("dir/a b"), to_path: path("dir/sub/c") });
}

#[test]
fn conflict_listing_round_trip() {
    let out = b"a.txt //\ndir/b c.rs //\nline\nbreak //\n";
    assert_eq!(
        conflicted_files(out),
        vec![
            FileChange::Conflict { path: path("a.txt") },
            FileChange::Conflict { path: path("dir/b c.rs") },
            FileChange::Conflict { path: path("line\nbreak") },
        ]
    );
    assert_eq!(conflicted_files(b""), vec![]);
}

#[test]
fn changed_files_reads_each_entry_in_order() {
    let out = b"modified // conflict.txt // conflict // conflict.txt // file //\n\
added // added file.rs //  // added file.rs // symlink //\n\
renamed // renamed.nix // file // after-rename.nix // file //\n\
removed // testing.ts // file // testing.ts //  //\n\
modified // sub // tree // sub // tree //\n";
    assert_eq!(
        changed_files(out),
        vec![
            FileChange::Modified { path: path("conflict.txt") },
            FileChange::Untracked { path: path("added file.rs") },
            FileChange::Renamed { from_path: path("renamed.nix"), to_path: path("after-rename.nix") },
            FileChange::Deleted { path: path("testing.ts") },
        ]
    );
}

#[test]
fn head_name_begins_with_change_id() {
    for out in ["kzqnuykl \n", "kzqnuykl main-1\n", "kzqnuykl \nabc x\n", "kzqnuykl x"] {
        match extract_head_name(out) {
            Ok(name) => assert!(name.starts_with("kzqnuykl")),
            Err(e) => panic!("unexpected {e:?}"),
        }
    }
}

#[test]
fn head_name_without_first_line_or_space_fails() {
    assert_eq!(extract_head_name(""), Err(HeadNameError::NoRevision));
    assert_eq!(extract_head_name("abcdefgh\nijklmnop main\n"), Err(HeadNameError::NoRevision));
    assert_eq!(extract_head_name("\n"), Err(HeadNameError::NoRevision));
}

#[test]
fn head_name_crlf_and_last_line_without_newline() {
    assert_eq!(extract_head_name("abcdefgh main\r\n").unwrap(), "abcdefgh (main)");
    assert_eq!(extract_head_name("abcdefgh \r\nijklmnop dev\r\n").unwrap(), "abcdefgh [dev]");
    assert_eq!(extract_head_name("abcdefgh \nijklmnop dev").unwrap(), "abcdefgh [dev]");
    // A lone `\r` without `\n` stays part of the last line.
    assert_eq!(extract_head_name("abcdefgh main\r").unwrap(), "abcdefgh (main\r)");
}

#[test]
fn head_name_stops_at_line_without_space() {
    assert_eq!(extract_head_name("abcdefgh \nnospace\nijklmnop dev\n").unwrap(), "abcdefgh");
    assert_eq!(extract_head_name("abcdefgh \nijklmnop a\nnospace\nqrstuvwx b\n").unwrap(), "abcdefgh [a]");
}

#[test]
fn head_name_trims_joined_ancestor_bookmarks() {
    assert_eq!(extract_head_name("abcdefgh \nijklmnop  a \nqrstuvwx b  \n").unwrap(), "abcdefgh [a  b]");
    assert_eq!(extract_head_name("abcdefgh \nijklmnop \u{a0}dev\u{3000}\n").unwrap(), "abcdefgh [dev]");
    // Bookmarks made only of white space still count as present.
    assert_eq!(extract_head_name("abcdefgh \nijklmnop  \n").unwrap(), "abcdefgh []");
    assert_eq!(extract_head_name("abcdefgh   \n").unwrap(), "abcdefgh (  )");
}

#[test]
fn head_name_from_log_errors() {
    assert_eq!(head_name_from_log(false, b"abcdefgh main\n"), Err(HeadNameError::LogFailed));
    assert_eq!(head_name_from_log(true, &[0xff, b' ', b'x']), Err(HeadNameError::InvalidUtf8));
    assert_eq!(head_name_from_log(true, b"nospace\n"), Err(HeadNameError::NoRevision));
    assert_eq!(head_name_from_log(true, "abcdefgh caf\u{e9}\n".as_bytes()), Ok("abcdefgh (caf\u{e9})".to_string()));
}

#[test]
fn white_space_matches_std() {
    for u in 0u32..=0x10ffff {
        if let Some(c) = char::from_u32(u) {
            assert_eq!(char_is_white_space(c), c.is_whitespace(), "{u:#x}");
        }
    }
}

#[test]
fn diff_base_is_empty_on_failure() {
    assert_eq!(diff_base_from_show(true, b"original content\n".to_vec()), b"original content\n".to_vec());
    assert_eq!(diff_base_from_show(false, b"error text".to_vec()), Vec::<u8>::new());
}
