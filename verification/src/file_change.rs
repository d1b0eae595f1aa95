use vstd::prelude::*;

use crate::bytes_split::{
    has_double_slash, join_with, lemma_listing_add, lemma_split_listing, lemma_split_recovers_parts,
    listing, separator, slice_views, split_double_slash, split_on,
};

verus! {

/// A path inside the repository, held as the bytes that `jj` printed for it.
#[derive(Clone, Debug, PartialEq, Eq)]
pub struct RepoPath {
    bytes: Vec<u8>,
}

impl View for RepoPath {
    type V = Seq<u8>;

    closed spec fn view(&self) -> Seq<u8> {
        self.bytes@
    }
}

impl RepoPath {
    /// The bytes of the path.
    pub fn as_bytes(&self) -> (b: &[u8])
        ensures
            b@ == self@,
    {
        self.bytes.as_slice()
    }
}

/// Builds a path from the bytes that name it; no byte is changed or lost.
pub fn make_pathbuf(sl: &[u8]) -> (p: RepoPath)
    ensures
        p@ == sl@,
{
    RepoPath { bytes: vstd::slice::slice_to_vec(sl) }
}

/// How a file differs between the working copy and its parent.
#[derive(Clone, Debug, PartialEq, Eq)]
pub enum FileChange {
    Untracked { path: RepoPath },
    Modified { path: RepoPath },
    Conflict { path: RepoPath },
    Deleted { path: RepoPath },
    Renamed { from_path: RepoPath, to_path: RepoPath },
}

/// A file change with its paths taken as byte sequences.
pub enum FileChangeView {
    Untracked(Seq<u8>),
    Modified(Seq<u8>),
    Conflict(Seq<u8>),
    Deleted(Seq<u8>),
    Renamed(Seq<u8>, Seq<u8>),
}

impl View for FileChange {
    type V = FileChangeView;

    open spec fn view(&self) -> FileChangeView {
        match self {
            FileChange::Untracked { path } => FileChangeView::Untracked(path@),
            FileChange::Modified { path } => FileChangeView::Modified(path@),
            FileChange::Conflict { path } => FileChangeView::Conflict(path@),
            FileChange::Deleted { path } => FileChangeView::Deleted(path@),
            FileChange::Renamed { from_path, to_path } => FileChangeView::Renamed(from_path@, to_path@),
        }
    }
}

/// The views of a list of changes.
pub open spec fn change_views(v: Seq<FileChange>) -> Seq<FileChangeView> {
    v.map_values(|c: FileChange| c@)
}

/// The bytes of `conflict`.
pub open spec fn word_conflict() -> Seq<u8> {
    seq![99u8, 111, 110, 102, 108, 105, 99, 116]
}

/// The bytes of `file`.
pub open spec fn word_file() -> Seq<u8> {
    seq![102u8, 105, 108, 101]
}

/// The bytes of `symlink`.
pub open spec fn word_symlink() -> Seq<u8> {
    seq![115u8, 121, 109, 108, 105, 110, 107]
}

/// The bytes of `added`.
pub open spec fn word_added() -> Seq<u8> {
    seq![97u8, 100, 100, 101, 100]
}

/// The bytes of `copied`.
pub open spec fn word_copied() -> Seq<u8> {
    seq![99u8, 111, 112, 105, 101, 100]
}

/// The bytes of `modified`.
pub open spec fn word_modified() -> Seq<u8> {
    seq![109u8, 111, 100, 105, 102, 105, 101, 100]
}

/// The bytes of `removed`.
pub open spec fn word_removed() -> Seq<u8> {
    seq![114u8, 101, 109, 111, 118, 101, 100]
}

/// The bytes of `renamed`.
pub open spec fn word_renamed() -> Seq<u8> {
    seq![114u8, 101, 110, 97, 109, 101, 100]
}

/// The file types that are kept: none (the file is absent on that side), a
/// conflict, a regular file or a symlink.
pub open spec fn known_file_type(t: Seq<u8>) -> bool {
    ||| t.len() == 0
    ||| t == word_conflict()
    ||| t == word_file()
    ||| t == word_symlink()
}

/// The change that the five sections of a `jj diff` entry describe, if any: a
/// conflicted target wins; otherwise both file types must be known, and the status
/// decides.
pub open spec fn change_of_sections(
    kind: Seq<u8>,
    source_path: Seq<u8>,
    source_type: Seq<u8>,
    target_path: Seq<u8>,
    target_type: Seq<u8>,
) -> Option<FileChangeView> {
    if target_type == word_conflict() {
        Some(FileChangeView::Conflict(target_path))
    } else if !known_file_type(source_type) || !known_file_type(target_type) {
        None
    } else if kind == word_added() || kind == word_copied() {
        Some(FileChangeView::Untracked(target_path))
    } else if kind == word_modified() {
        Some(FileChangeView::Modified(target_path))
    } else if kind == word_removed() {
        Some(FileChangeView::Deleted(target_path))
    } else if kind == word_renamed() {
        Some(FileChangeView::Renamed(source_path, target_path))
    } else {
        None
    }
}

/// The change that one entry `status // source path // source type // target path //
/// target type` of `jj diff` describes, if any; `None` when it has fewer than five
/// sections. Sections past the fifth are ignored.
pub open spec fn spec_entry_to_change(entry: Seq<u8>) -> Option<FileChangeView> {
    let secs = split_on(entry, separator(false));
    if secs.len() < 5 {
        None
    } else {
        change_of_sections(secs[0], secs[1], secs[2], secs[3], secs[4])
    }
}

/// Whether two byte slices hold the same bytes.
pub fn bytes_eq(a: &[u8], b: &[u8]) -> (r: bool)
    ensures
        r == (a@ == b@),
{
    if a.len() != b.len() {
        return false;
    }
    let mut i: usize = 0;
    while i < a.len()
        invariant
            a@.len() == b@.len(),
            i <= a@.len(),
            forall|j: int| 0 <= j < i ==> a@[j] == b@[j],
        decreases a@.len() - i,
    {
        if a[i] != b[i] {
            return false;
        }
        i = i + 1;
    }
    assert(a@ =~= b@);
    true
}

fn is_known_file_type(t: &[u8]) -> (r: bool)
    ensures
        r == known_file_type(t@),
{
    let conflict: [u8; 8] = [99u8, 111, 110, 102, 108, 105, 99, 116];
    let file: [u8; 4] = [102u8, 105, 108, 101];
    let symlink: [u8; 7] = [115u8, 121, 109, 108, 105, 110, 107];
    let c = conflict.as_slice();
    let f = file.as_slice();
    let s = symlink.as_slice();
    assert(c@ =~= word_conflict());
    assert(f@ =~= word_file());
    assert(s@ =~= word_symlink());
    t.len() == 0 || bytes_eq(t, c) || bytes_eq(t, f) || bytes_eq(t, s)
}

/// Associates a status to a `FileChange`, from an entry such as
/// `modified // conflict.txt // conflict // conflict.txt // file`.
pub fn entry_to_change(entry: &[u8]) -> (change: Option<FileChange>)
    ensures
        match change {
            Some(c) => spec_entry_to_change(entry@) == Some(c@),
            None => spec_entry_to_change(entry@) is None,
        },
{
    let sections = split_double_slash(entry, false);
    let ghost secs = split_on(entry@, separator(false));
    assert(slice_views(sections@) == secs);
    if sections.len() < 5 {
        return None;
    }
    let kind = sections[0];
    let source_path = sections[1];
    let source_file_type = sections[2];
    let target_path = sections[3];
    let target_file_type = sections[4];
    assert(kind@ == secs[0]);
    assert(source_path@ == secs[1]);
    assert(source_file_type@ == secs[2]);
    assert(target_path@ == secs[3]);
    assert(target_file_type@ == secs[4]);

    let conflict: [u8; 8] = [99u8, 111, 110, 102, 108, 105, 99, 116];
    let w_conflict = conflict.as_slice();
    assert(w_conflict@ =~= word_conflict());
    if bytes_eq(target_file_type, w_conflict) {
        return Some(FileChange::Conflict { path: make_pathbuf(target_path) });
    }
    if !is_known_file_type(source_file_type) || !is_known_file_type(target_file_type) {
        return None;
    }

    let added: [u8; 5] = [97u8, 100, 100, 101, 100];
    let copied: [u8; 6] = [99u8, 111, 112, 105, 101, 100];
    let modified: [u8; 8] = [109u8, 111, 100, 105, 102, 105, 101, 100];
    let removed: [u8; 7] = [114u8, 101, 109, 111, 118, 101, 100];
    let renamed: [u8; 7] = [114u8, 101, 110, 97, 109, 101, 100];
    let w_added = added.as_slice();
    assert(w_added@ =~= word_added());
    let w_copied = copied.as_slice();
    assert(w_copied@ =~= word_copied());
    let w_modified = modified.as_slice();
    assert(w_modified@ =~= word_modified());
    let w_removed = removed.as_slice();
    assert(w_removed@ =~= word_removed());
    let w_renamed = renamed.as_slice();
    assert(w_renamed@ =~= word_renamed());

    let change = if bytes_eq(kind, w_added) || bytes_eq(kind, w_copied) {
        FileChange::Untracked { path: make_pathbuf(target_path) }
    } else if bytes_eq(kind, w_modified) {
        FileChange::Modified { path: make_pathbuf(target_path) }
    } else if bytes_eq(kind, w_removed) {
        FileChange::Deleted { path: make_pathbuf(target_path) }
    } else if bytes_eq(kind, w_renamed) {
        FileChange::Renamed { from_path: make_pathbuf(source_path), to_path: make_pathbuf(target_path) }
    } else {
        return None;
    };
    Some(change)
}

/// The conflicted files that the entries of `jj file list` name, skipping empty
/// entries, in order.
pub open spec fn conflicts_of(entries: Seq<Seq<u8>>) -> Seq<FileChangeView>
    decreases entries.len(),
{
    if entries.len() == 0 {
        Seq::empty()
    } else {
        let before = conflicts_of(entries.drop_last());
        let e = entries.last();
        if e.len() == 0 {
            before
        } else {
            before.push(FileChangeView::Conflict(e))
        }
    }
}

/// The changes that the entries of `jj diff` describe, skipping empty entries and
/// entries that describe no change, in order.
pub open spec fn changes_of(entries: Seq<Seq<u8>>) -> Seq<FileChangeView>
    decreases entries.len(),
{
    if entries.len() == 0 {
        Seq::empty()
    } else {
        let before = changes_of(entries.drop_last());
        let e = entries.last();
        if e.len() == 0 {
            before
        } else {
            match spec_entry_to_change(e) {
                Some(c) => before.push(c),
                None => before,
            }
        }
    }
}

/// The conflicted files listed in the output of `jj file list`, one path per
/// ` //\n`-terminated entry.
pub open spec fn spec_conflicted_files(out: Seq<u8>) -> Seq<FileChangeView> {
    conflicts_of(split_on(out, separator(true)))
}

/// The changes listed in the output of `jj diff`, one ` //\n`-terminated entry each.
pub open spec fn spec_changed_files(out: Seq<u8>) -> Seq<FileChangeView> {
    changes_of(split_on(out, separator(true)))
}

/// Reads the conflicted files out of the output of `jj file list`.
pub fn conflicted_files(out: &[u8]) -> (changes: Vec<FileChange>)
    ensures
        change_views(changes@) == spec_conflicted_files(out@),
{
    let entries = split_double_slash(out, true);
    let ghost es = split_on(out@, separator(true));
    let mut changes: Vec<FileChange> = Vec::new();
    let mut i: usize = 0;
    while i < entries.len()
        invariant
            slice_views(entries@) == es,
            i <= entries@.len(),
            change_views(changes@) == conflicts_of(es.take(i as int)),
        decreases entries@.len() - i,
    {
        let entry = entries[i];
        assert(es.take(i + 1).drop_last() =~= es.take(i as int));
        assert(es.take(i + 1).last() == entry@);
        let ghost before = changes@;
        if entry.len() != 0 {
            changes.push(FileChange::Conflict { path: make_pathbuf(entry) });
            assert(change_views(changes@) =~= change_views(before).push(changes@.last()@));
        }
        i = i + 1;
    }
    assert(es.take(entries@.len() as int) =~= es);
    changes
}

/// Reads the changed files out of the output of `jj diff`.
pub fn changed_files(out: &[u8]) -> (changes: Vec<FileChange>)
    ensures
        change_views(changes@) == spec_changed_files(out@),
{
    let entries = split_double_slash(out, true);
    let ghost es = split_on(out@, separator(true));
    let mut changes: Vec<FileChange> = Vec::new();
    let mut i: usize = 0;
    while i < entries.len()
        invariant
            slice_views(entries@) == es,
            i <= entries@.len(),
            change_views(changes@) == changes_of(es.take(i as int)),
        decreases entries@.len() - i,
    {
        let entry = entries[i];
        assert(es.take(i + 1).drop_last() =~= es.take(i as int));
        assert(es.take(i + 1).last() == entry@);
        let ghost before = changes@;
        if entry.len() != 0 {
            if let Some(change) = entry_to_change(entry) {
                changes.push(change);
                assert(change_views(changes@) =~= change_views(before).push(changes@.last()@));
            }
        }
        i = i + 1;
    }
    assert(es.take(entries@.len() as int) =~= es);
    changes
}

/// An entry written as its five sections joined by ` // ` is read back as the change
/// those sections describe, as long as no section holds `//`.
pub proof fn lemma_entry_of_sections(
    kind: Seq<u8>,
    source_path: Seq<u8>,
    source_type: Seq<u8>,
    target_path: Seq<u8>,
    target_type: Seq<u8>,
)
    requires
        !has_double_slash(kind),
        !has_double_slash(source_path),
        !has_double_slash(source_type),
        !has_double_slash(target_path),
        !has_double_slash(target_type),
    ensures
        spec_entry_to_change(
            join_with(seq![kind, source_path, source_type, target_path, target_type], separator(false)),
        ) == change_of_sections(kind, source_path, source_type, target_path, target_type),
{
    let parts = seq![kind, source_path, source_type, target_path, target_type];
    assert forall|i: int| 0 <= i < parts.len() implies !has_double_slash(#[trigger] parts[i]) by {
        if i == 0 {
        } else if i == 1 {
        } else if i == 2 {
        } else if i == 3 {
        } else {
        }
    }
    lemma_split_recovers_parts(parts, false);
}

/// The conflict list of paths that each hold no `//`, written one per entry with each
/// entry ended by ` //\n`, is read back as exactly those conflicts, in order.
pub proof fn lemma_conflict_listing(paths: Seq<Seq<u8>>)
    requires
        forall|i: int| 0 <= i < paths.len() ==> (#[trigger] paths[i]).len() > 0 && !has_double_slash(paths[i]),
    ensures
        spec_conflicted_files(join_with(paths.push(Seq::empty()), separator(true))) == paths.map_values(
            |p: Seq<u8>| FileChangeView::Conflict(p),
        ),
{
    let entries = paths.push(Seq::<u8>::empty());
    assert forall|i: int| 0 <= i < entries.len() implies !has_double_slash(#[trigger] entries[i]) by {
        if i < paths.len() {
            assert(entries[i] == paths[i]);
        } else {
            assert(entries[i].len() == 0);
        }
    }
    lemma_split_recovers_parts(entries, true);
    assert(entries.drop_last() =~= paths);
    lemma_conflicts_of_nonempty(paths);
}

proof fn lemma_conflicts_of_nonempty(paths: Seq<Seq<u8>>)
    requires
        forall|i: int| 0 <= i < paths.len() ==> (#[trigger] paths[i]).len() > 0,
    ensures
        conflicts_of(paths) == paths.map_values(|p: Seq<u8>| FileChangeView::Conflict(p)),
    decreases paths.len(),
{
    if paths.len() > 0 {
        let init = paths.drop_last();
        assert forall|i: int| 0 <= i < init.len() implies (#[trigger] init[i]).len() > 0 by {
            assert(init[i] == paths[i]);
        }
        lemma_conflicts_of_nonempty(init);
        assert(paths.last().len() > 0);
        assert(paths.map_values(|p: Seq<u8>| FileChangeView::Conflict(p)) =~= init.map_values(
            |p: Seq<u8>| FileChangeView::Conflict(p),
        ).push(FileChangeView::Conflict(paths.last())));
    } else {
        assert(paths.map_values(|p: Seq<u8>| FileChangeView::Conflict(p)) =~= Seq::<FileChangeView>::empty());
    }
}

/// How one `jj diff` entry, written as its five sections joined by ` // ` (none of
/// them holding `//`), is classified:
/// - a `conflict` target type gives a conflict on the target path, whatever the rest;
/// - otherwise a source or target type other than the empty type, `conflict`, `file`
///   or `symlink` drops the entry;
/// - otherwise `added` and `copied` give an untracked target path, `modified` a
///   modified target path, `removed` a deleted target path, `renamed` a rename from
///   the source path to the target path, and any other status drops the entry.
pub proof fn lemma_entry_classification(
    kind: Seq<u8>,
    source_path: Seq<u8>,
    source_type: Seq<u8>,
    target_path: Seq<u8>,
    target_type: Seq<u8>,
)
    requires
        !has_double_slash(kind),
        !has_double_slash(source_path),
        !has_double_slash(source_type),
        !has_double_slash(target_path),
        !has_double_slash(target_type),
    ensures
        ({
            let entry = join_with(
                seq![kind, source_path, source_type, target_path, target_type],
                separator(false),
            );
            let conflict = seq![99u8, 111, 110, 102, 108, 105, 99, 116];
            let file = seq![102u8, 105, 108, 101];
            let symlink = seq![115u8, 121, 109, 108, 105, 110, 107];
            let kept = |t: Seq<u8>| t.len() == 0 || t == conflict || t == file || t == symlink;
            let typed = target_type != conflict && kept(source_type) && kept(target_type);
            &&& target_type == conflict ==> spec_entry_to_change(entry) == Some(
                FileChangeView::Conflict(target_path),
            )
            &&& target_type != conflict && (!kept(source_type) || !kept(target_type))
                ==> spec_entry_to_change(entry) is None
            &&& typed && (kind == seq![97u8, 100, 100, 101, 100] || kind == seq![
                99u8,
                111,
                112,
                105,
                101,
                100,
            ]) ==> spec_entry_to_change(entry) == Some(FileChangeView::Untracked(target_path))
            &&& typed && kind == seq![109u8, 111, 100, 105, 102, 105, 101, 100] ==> spec_entry_to_change(
                entry,
            ) == Some(FileChangeView::Modified(target_path))
            &&& typed && kind == seq![114u8, 101, 109, 111, 118, 101, 100] ==> spec_entry_to_change(entry)
                == Some(FileChangeView::Deleted(target_path))
            &&& typed && kind == seq![114u8, 101, 110, 97, 109, 101, 100] ==> spec_entry_to_change(entry)
                == Some(FileChangeView::Renamed(source_path, target_path))
            &&& typed && kind != seq![97u8, 100, 100, 101, 100] && kind != seq![
                99u8,
                111,
                112,
                105,
                101,
                100,
            ] && kind != seq![109u8, 111, 100, 105, 102, 105, 101, 100] && kind != seq![
                114u8,
                101,
                109,
                111,
                118,
                101,
                100,
            ] && kind != seq![114u8, 101, 110, 97, 109, 101, 100] ==> spec_entry_to_change(entry) is None
        }),
{
    lemma_entry_of_sections(kind, source_path, source_type, target_path, target_type);
    assert(word_conflict() =~= seq![99u8, 111, 110, 102, 108, 105, 99, 116]);
    assert(word_file() =~= seq![102u8, 105, 108, 101]);
    assert(word_symlink() =~= seq![115u8, 121, 109, 108, 105, 110, 107]);
    assert(word_added() =~= seq![97u8, 100, 100, 101, 100]);
    assert(word_copied() =~= seq![99u8, 111, 112, 105, 101, 100]);
    assert(word_modified() =~= seq![109u8, 111, 100, 105, 102, 105, 101, 100]);
    assert(word_removed() =~= seq![114u8, 101, 109, 111, 118, 101, 100]);
    assert(word_renamed() =~= seq![114u8, 101, 110, 97, 109, 101, 100]);
    assert(word_removed()[2] != word_renamed()[2]);
}

/// An empty entry describes no change.
proof fn lemma_empty_entry(e: Seq<u8>)
    requires
        e.len() == 0,
    ensures
        spec_entry_to_change(e) is None,
{
    assert(split_on(e, separator(false)) == seq![e]);
}

/// The changes of a list of entries are those of each entry that describes one, in
/// order.
proof fn lemma_changes_of_filter_map(es: Seq<Seq<u8>>)
    ensures
        changes_of(es) == es.filter_map(|e: Seq<u8>| spec_entry_to_change(e)),
    decreases es.len(),
{
    if es.len() > 0 {
        lemma_changes_of_filter_map(es.drop_last());
        if es.last().len() == 0 {
            lemma_empty_entry(es.last());
        }
        match spec_entry_to_change(es.last()) {
            Some(c) => {
                assert(es.drop_last().filter_map(|e: Seq<u8>| spec_entry_to_change(e)).push(c)
                    =~= es.drop_last().filter_map(|e: Seq<u8>| spec_entry_to_change(e)) + seq![c]);
            },
            None => {},
        }
    }
}

/// The `jj diff` output made of entries that hold no line feed, each ended by
/// ` //\n`, lists the change of every entry that describes one, in order, the last
/// entry included.
pub proof fn lemma_changed_files_listing(entries: Seq<Seq<u8>>)
    requires
        forall|k: int, i: int| 0 <= k < entries.len() && 0 <= i < entries[k].len() ==> #[trigger] entries[k][i]
            != 10u8,
    ensures
        spec_changed_files(listing(entries, separator(true))) == entries.filter_map(
            |e: Seq<u8>| spec_entry_to_change(e),
        ),
{
    lemma_split_listing(entries);
    let es = entries.push(Seq::<u8>::empty());
    assert(es.drop_last() =~= entries);
    assert(changes_of(es) == changes_of(entries));
    lemma_changes_of_filter_map(entries);
}

proof fn lemma_filter_map_add(xs: Seq<Seq<u8>>, ys: Seq<Seq<u8>>)
    ensures
        (xs + ys).filter_map(|e: Seq<u8>| spec_entry_to_change(e)) == xs.filter_map(
            |e: Seq<u8>| spec_entry_to_change(e),
        ) + ys.filter_map(|e: Seq<u8>| spec_entry_to_change(e)),
    decreases ys.len(),
{
    if ys.len() == 0 {
        assert(xs + ys =~= xs);
        assert(xs.filter_map(|e: Seq<u8>| spec_entry_to_change(e)) + ys.filter_map(
            |e: Seq<u8>| spec_entry_to_change(e),
        ) =~= xs.filter_map(|e: Seq<u8>| spec_entry_to_change(e)));
    } else {
        lemma_filter_map_add(xs, ys.drop_last());
        assert((xs + ys).drop_last() =~= xs + ys.drop_last());
        assert((xs + ys).last() == ys.last());
        let fx = xs.filter_map(|e: Seq<u8>| spec_entry_to_change(e));
        let fy0 = ys.drop_last().filter_map(|e: Seq<u8>| spec_entry_to_change(e));
        match spec_entry_to_change(ys.last()) {
            Some(c) => {
                assert(fx + fy0 + seq![c] =~= fx + (fy0 + seq![c]));
            },
            None => {},
        }
    }
}

/// Entries are read independently of each other: the changes listed for the entries
/// of one output followed by those of another are the changes of the first followed
/// by the changes of the second, so an entry that describes no change never hides
/// the changes after it.
pub proof fn lemma_changed_files_append(xs: Seq<Seq<u8>>, ys: Seq<Seq<u8>>)
    requires
        forall|k: int, i: int| 0 <= k < xs.len() && 0 <= i < xs[k].len() ==> #[trigger] xs[k][i] != 10u8,
        forall|k: int, i: int| 0 <= k < ys.len() && 0 <= i < ys[k].len() ==> #[trigger] ys[k][i] != 10u8,
    ensures
        spec_changed_files(listing(xs, separator(true)) + listing(ys, separator(true)))
            == spec_changed_files(listing(xs, separator(true))) + spec_changed_files(
            listing(ys, separator(true)),
        ),
{
    let n = separator(true);
    lemma_listing_add(xs, ys, n);
    let zs = xs + ys;
    assert forall|k: int, i: int| 0 <= k < zs.len() && 0 <= i < zs[k].len() implies #[trigger] zs[k][i]
        != 10u8 by {
        if k < xs.len() {
            assert(zs[k] == xs[k]);
        } else {
            assert(zs[k] == ys[k - xs.len()]);
        }
    }
    lemma_changed_files_listing(zs);
    lemma_changed_files_listing(xs);
    lemma_changed_files_listing(ys);
    lemma_filter_map_add(xs, ys);
}

} // verus!
