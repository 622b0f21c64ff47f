//! A whole run, from the configured paths to the entries of the archive.

use vstd::prelude::*;
use crate::archive::{archived, entry_of, lemma_copied_files_are_entries, Outcome, SourceFile};
use crate::config::Config;
use crate::crawl::{
    files_for, files_under, lemma_flat_directory_yields_its_entries,
    lemma_regular_files_are_found, Snapshot,
};
use crate::resolve::{lemma_entry_name_strips_separator, SEPARATOR};

verus! {

/// Whether the files that were read are the files that the walk found, one
/// for one.
pub open spec fn read_as_found(files: Seq<SourceFile>, found: Seq<String>) -> bool {
    &&& files.len() == found.len()
    &&& forall|i: int| 0 <= i < files.len() ==> (#[trigger] files[i]).path == found[i]
}

/// Whether every file was copied whole.
pub open spec fn all_copied(outcomes: Seq<Outcome>) -> bool {
    forall|i: int| 0 <= i < outcomes.len() ==> outcomes[i] == Outcome::Copied
}

/// Where every configured path is a regular file and every file is copied
/// whole into a new archive, the archive holds one entry for each configured
/// path, in their order: under the file's absolute path without the separator
/// in front, and with the bytes that were read of the file. Files with
/// different absolute paths have entries with different names, so for inputs
/// that are all different files that is exactly one entry per file.
pub proof fn lemma_regular_inputs_are_archived(
    config: Config,
    snapshot: Snapshot,
    files: Seq<SourceFile>,
    outcomes: Seq<Outcome>,
    entries: Seq<(Seq<char>, Seq<u8>)>,
)
    requires
        forall|i: int|
            0 <= i < config.input_paths@.len() ==> (#[trigger] snapshot.observed_at(
                config.input_paths@[i]@,
            )) is Some && snapshot.observed_at(config.input_paths@[i]@)->0.kind is File,
        read_as_found(files, files_for(config.input_paths@, snapshot)),
        archived(Seq::empty(), files, outcomes, entries),
        all_copied(outcomes),
    ensures
        entries.len() == config.input_paths@.len(),
        forall|i: int|
            0 <= i < entries.len() ==> {
                &&& (#[trigger] files[i]).path@ == config.input_paths@[i]@
                &&& files[i].absolute is Some
                &&& files[i].absolute->0@ == seq![SEPARATOR] + entries[i].0
                &&& entries[i].1 == files[i].bytes()
            },
        forall|i: int, j: int|
            0 <= i < j < entries.len() && files[i].absolute->0@ != files[j].absolute->0@
                ==> entries[i].0 != entries[j].0,
{
    lemma_regular_files_are_found(config.input_paths@, snapshot);
    lemma_copied_files_are_entries(Seq::empty(), files, outcomes, entries);
    assert forall|i: int| 0 <= i < entries.len() implies {
        &&& (#[trigger] files[i]).path@ == config.input_paths@[i]@
        &&& files[i].absolute is Some
        &&& files[i].absolute->0@ == seq![SEPARATOR] + entries[i].0
        &&& entries[i].1 == files[i].bytes()
    } by {
        assert(files[i].path == files_for(config.input_paths@, snapshot)[i]);
        assert(entries[0 + i] == entry_of(files[i]));
        lemma_entry_name_strips_separator(files[i].absolute->0@);
    }
}

/// Where the one configured path is a directory that holds regular files and
/// nothing else, and every file is copied whole into a new archive, the
/// archive holds as many entries as the directory has files, in whatever
/// order the directory listed them.
pub proof fn lemma_flat_directory_is_archived(
    config: Config,
    snapshot: Snapshot,
    files: Seq<SourceFile>,
    outcomes: Seq<Outcome>,
    entries: Seq<(Seq<char>, Seq<u8>)>,
)
    requires
        config.input_paths@.len() == 1,
        snapshot.observed_at(config.input_paths@[0]@) is Some,
        snapshot.observed_at(config.input_paths@[0]@)->0.kind is Directory,
        forall|i: int|
            0 <= i < snapshot.observed_at(config.input_paths@[0]@)->0.kind->Directory_0@.len()
                ==> (#[trigger] snapshot.observed_at(
                config.input_paths@[0]@,
            )->0.kind->Directory_0@[i]).kind is File,
        read_as_found(files, files_for(config.input_paths@, snapshot)),
        archived(Seq::empty(), files, outcomes, entries),
        all_copied(outcomes),
    ensures
        entries.len() == snapshot.observed_at(config.input_paths@[0]@)->0.kind->Directory_0@.len(),
        forall|i: int|
            0 <= i < entries.len() ==> (#[trigger] files[i]).path == snapshot.observed_at(
                config.input_paths@[0]@,
            )->0.kind->Directory_0@[i].path && entries[i] == entry_of(files[i]),
{
    let node = snapshot.observed_at(config.input_paths@[0]@)->0;
    lemma_flat_directory_yields_its_entries(node);
    assert(config.input_paths@.drop_last() =~= Seq::<String>::empty());
    assert(files_for(Seq::<String>::empty(), snapshot) =~= Seq::<String>::empty());
    assert(config.input_paths@.last() == config.input_paths@[0]);
    assert(files_for(config.input_paths@, snapshot) =~= files_under(node));
    lemma_copied_files_are_entries(Seq::empty(), files, outcomes, entries);
    assert forall|i: int| 0 <= i < entries.len() implies (#[trigger] files[i]).path
        == node.kind->Directory_0@[i].path && entries[i] == entry_of(files[i]) by {
        assert(files[i].path == files_under(node)[i]);
        assert(entries[0 + i] == entry_of(files[i]));
    }
}

} // verus!
