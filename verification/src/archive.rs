//! Copying files into a ZIP archive that is built in memory.

use vstd::prelude::*;
use vstd::slice::slice_subrange;
use crate::resolve::{entry_name, get_absolute_path_string, text_of};

verus! {

/// The most bytes that are handed to the archive in one piece.
pub const BUFFER_SIZE: usize = 8196;

/// A ZIP archive that is being written into memory: a `zip::ZipWriter` over a
/// `std::io::Cursor<Vec<u8>>`. The proofs do not look inside it; all that they
/// know of it is said through `archive_entries`.
#[verifier::external_body]
pub struct Archive {
    writer: zip::ZipWriter<std::io::Cursor<Vec<u8>>>,
}

/// The entries that an archive has taken so far, oldest first: the name under
/// which each was started and the bytes that the writer has accepted for it.
pub uninterp spec fn archive_entries(archive: Archive) -> Seq<(Seq<char>, Seq<u8>)>;

/// The bytes that sealing an archive gives, where it can be sealed. They are
/// made of what the writer holds and of nothing else: the writer reads no
/// clock and no file while it seals (the time of each entry was taken when
/// the entry was started).
pub uninterp spec fn sealed_bytes(archive: Archive) -> Option<Seq<u8>>;

/// Whether an archive starts an entry when it is asked to, under the given
/// name. The writer refuses where it is closed, or cannot finish the entry
/// before or write the header of the new one; the time that it notes for the
/// new entry plays no part.
pub uninterp spec fn start_answer(archive: Archive, name: Seq<char>) -> bool;

/// What an archive answers when it is handed a buffer for its newest entry:
/// how many bytes it took, or nothing where the write failed. The writer
/// works in memory, so the answer is made of what it holds and of the buffer.
pub uninterp spec fn write_answer(archive: Archive, buffer: Seq<u8>) -> Option<usize>;

/// The archive as a write of the buffer leaves it, whether the write
/// succeeded or not.
pub uninterp spec fn archive_after_write(archive: Archive, buffer: Seq<u8>) -> Archive;

/// The entries after more bytes went into the newest of them. Where there is
/// no entry, the bytes have nowhere to go.
pub open spec fn extended(entries: Seq<(Seq<char>, Seq<u8>)>, bytes: Seq<u8>) -> Seq<
    (Seq<char>, Seq<u8>),
> {
    if entries.len() == 0 {
        entries
    } else {
        entries.update(entries.len() - 1, (entries.last().0, entries.last().1 + bytes))
    }
}

/// `zip::ZipWriter::new` over a `std::io::Cursor` on an empty vector: a writer
/// that has taken no entry yet.
#[verifier::external_body]
fn zip_new() -> (archive: Archive)
    ensures
        archive_entries(archive) == Seq::<(Seq<char>, Seq<u8>)>::empty(),
{
    Archive { writer: zip::ZipWriter::new(std::io::Cursor::new(Vec::new())) }
}

/// `zip::ZipWriter::start_file` with the default `FileOptions`. Whether it
/// succeeds is what `start_answer` names for the writer and the name. When it
/// succeeds, the writer has one more entry, under the given name and still
/// empty. When it fails, the writer has recorded no new entry: it records one
/// only once the entry's header is written, and with the default options
/// nothing fails after that. The writer that it leaves has no name: it holds
/// the time at which the entry was started.
#[verifier::external_body]
fn zip_start_file(archive: &mut Archive, name: &str) -> (started: bool)
    ensures
        started == start_answer(*old(archive), name@),
        started ==> archive_entries(*final(archive)) == archive_entries(*old(archive)).push(
            (name@, Seq::<u8>::empty()),
        ),
        !started ==> archive_entries(*final(archive)) == archive_entries(*old(archive)),
{
    archive.writer.start_file(name, Default::default()).is_ok()
}

/// `std::io::Write::write` as `zip::ZipWriter` implements it. When it reports
/// a count, the count is no more than the buffer holds, and that many bytes
/// from the front of the buffer went into the newest entry. When it fails,
/// some bytes from the front of the buffer may still have gone there (the
/// writer counts them before it finds the entry too large). Either way no
/// other entry has changed, and without an entry nothing is taken. The
/// answer and the writer afterwards are what `write_answer` and
/// `archive_after_write` name for the writer before and the buffer.
#[verifier::external_body]
fn zip_write(archive: &mut Archive, buffer: &[u8]) -> (accepted: Option<usize>)
    ensures
        accepted == write_answer(*old(archive), buffer@),
        *final(archive) == archive_after_write(*old(archive), buffer@),
        match accepted {
            Some(count) => count <= buffer@.len() && archive_entries(*final(archive)) == extended(
                archive_entries(*old(archive)),
                buffer@.take(count as int),
            ),
            None => exists|count: int|
                0 <= count <= buffer@.len() && archive_entries(*final(archive)) == extended(
                    archive_entries(*old(archive)),
                    #[trigger] buffer@.take(count),
                ),
        },
{
    std::io::Write::write(&mut archive.writer, buffer).ok()
}

/// `zip::ZipWriter::finish`, then `std::io::Cursor::into_inner`: the bytes of
/// the finished archive, where the writer could close its last entry and
/// write the central directory. The result is what `sealed_bytes` names for
/// this archive; nothing is claimed of what the bytes hold, nor that sealing
/// succeeds.
#[verifier::external_body]
fn zip_finish(archive: Archive) -> (bytes: Option<Vec<u8>>)
    ensures
        match bytes {
            Some(bytes) => sealed_bytes(archive) == Some(bytes@),
            None => sealed_bytes(archive) is None,
        },
{
    let mut archive = archive;
    archive.writer.finish().ok().map(std::io::Cursor::into_inner)
}

/// What was read of a file that could be opened.
pub struct Content {
    /// The bytes read, from the start of the file.
    pub bytes: Vec<u8>,
    /// Whether reading reached the end of the file. If not, a read failed
    /// after `bytes`.
    pub complete: bool,
}

/// A discovered file, with what the file system gave for it.
pub struct SourceFile {
    /// The path under which the file was discovered.
    pub path: String,
    /// The canonical absolute path, where the path could be resolved to one
    /// that is valid text.
    pub absolute: Option<String>,
    /// What was read, where the file could be opened.
    pub content: Option<Content>,
}

impl SourceFile {
    /// The name of the file's entry, if it can have one.
    pub open spec fn name(self) -> Option<Seq<char>> {
        entry_name(text_of(self.absolute))
    }

    /// The bytes that were read of the file.
    pub open spec fn bytes(self) -> Seq<u8> {
        match self.content {
            Some(content) => content.bytes@,
            None => Seq::empty(),
        }
    }
}

/// What became of one file.
#[derive(Clone, Copy, Debug, PartialEq, Eq, Structural)]
pub enum Outcome {
    /// The file has no entry name. Nothing was written.
    Unresolved,
    /// The file could not be opened. Nothing was written.
    Unopened,
    /// The archive did not start an entry for the file.
    Refused,
    /// The whole file is in its entry.
    Copied,
    /// All that could be read is in the entry, but reading the file failed
    /// before its end.
    ReadFailed,
    /// The archive stopped taking bytes; the entry holds some front part of
    /// what was read.
    WriteFailed,
}

/// Whether handling `file` with the given outcome leaves one more entry in the
/// archive.
pub open spec fn adds_entry(file: SourceFile, outcome: Outcome) -> bool {
    file.name() is Some && file.content is Some && (outcome == Outcome::Copied || outcome
        == Outcome::ReadFailed || outcome == Outcome::WriteFailed)
}

/// Whether an archive that held `before` may hold `after` once `file` has been
/// handled with the given outcome.
pub open spec fn file_archived(
    before: Seq<(Seq<char>, Seq<u8>)>,
    file: SourceFile,
    outcome: Outcome,
    after: Seq<(Seq<char>, Seq<u8>)>,
) -> bool {
    if file.name() is None {
        outcome == Outcome::Unresolved && after == before
    } else if file.content is None {
        outcome == Outcome::Unopened && after == before
    } else if outcome == Outcome::Refused {
        after == before
    } else if outcome == Outcome::Copied {
        file.content->0.complete && after == before.push((file.name()->0, file.bytes()))
    } else if outcome == Outcome::ReadFailed {
        !file.content->0.complete && after == before.push((file.name()->0, file.bytes()))
    } else {
        &&& outcome == Outcome::WriteFailed
        &&& after.len() > 0
        &&& after.drop_last() == before
        &&& after.last().0 == file.name()->0
        &&& after.last().1.is_prefix_of(file.bytes())
    }
}

/// Whether an archive that held `before` may hold `after` once the files have
/// been handled in order, each with its outcome.
pub open spec fn archived(
    before: Seq<(Seq<char>, Seq<u8>)>,
    files: Seq<SourceFile>,
    outcomes: Seq<Outcome>,
    after: Seq<(Seq<char>, Seq<u8>)>,
) -> bool
    decreases files.len(),
{
    if files.len() == 0 {
        outcomes.len() == 0 && after == before
    } else {
        let middle = if adds_entry(files.last(), outcomes.last()) {
            after.drop_last()
        } else {
            after
        };
        &&& outcomes.len() == files.len()
        &&& archived(before, files.drop_last(), outcomes.drop_last(), middle)
        &&& file_archived(middle, files.last(), outcomes.last(), after)
    }
}

/// What is said of a file that was handled with the given outcome, if
/// anything is said.
pub open spec fn warning_text(file: SourceFile, outcome: Outcome) -> Option<Seq<char>> {
    match outcome {
        Outcome::Unresolved => Some("Unable to extract absolute path of "@ + file.path@),
        Outcome::Refused => Some("Unable to create zip entry"@),
        Outcome::ReadFailed => Some("Error occurred while reading file"@),
        Outcome::WriteFailed => Some("Error occurred while writing to zip file"@),
        _ => None,
    }
}

/// The entry that a file makes when all that was read of it is copied.
pub open spec fn entry_of(file: SourceFile) -> (Seq<char>, Seq<u8>) {
    (file.name()->0, file.bytes())
}

/// The entries of the files, in order.
pub open spec fn entries_of(files: Seq<SourceFile>) -> Seq<(Seq<char>, Seq<u8>)> {
    files.map_values(|file: SourceFile| entry_of(file))
}

impl Archive {
    /// The entries taken so far.
    pub open spec fn entries(&self) -> Seq<(Seq<char>, Seq<u8>)> {
        archive_entries(*self)
    }

    /// An archive without entries.
    pub fn new() -> (archive: Archive)
        ensures
            archive.entries() == Seq::<(Seq<char>, Seq<u8>)>::empty(),
    {
        zip_new()
    }

    /// Seals the archive and hands out its bytes: the bytes that sealing
    /// gives for this archive, where it gives any. Where the archive cannot
    /// be sealed, the result is the message that says so.
    pub fn finish(self) -> (sealed: Result<Vec<u8>, String>)
        ensures
            match sealed_bytes(self) {
                Some(bytes) => sealed is Ok && sealed->Ok_0@ == bytes,
                None => sealed is Err && sealed->Err_0@
                    == "ERROR: zip.finish() returned error."@,
            },
    {
        seal_result(zip_finish(self))
    }
}

/// The result of sealing an archive: its bytes, where sealing gave any, and
/// else the message that says that it failed.
pub fn seal_result(bytes: Option<Vec<u8>>) -> (sealed: Result<Vec<u8>, String>)
    ensures
        match bytes {
            Some(bytes) => sealed == Ok::<Vec<u8>, String>(bytes),
            None => sealed is Err && sealed->Err_0@ == "ERROR: zip.finish() returned error."@,
        },
{
    match bytes {
        Some(bytes) => Ok(bytes),
        None => Err(String::from_str("ERROR: zip.finish() returned error.")),
    }
}

/// Where the piece ends that starts at `offset` in `total` bytes: at most
/// `BUFFER_SIZE` bytes further, and never beyond the last byte.
pub open spec fn piece_end(offset: usize, total: usize) -> usize {
    if offset >= total {
        total
    } else if total - offset > BUFFER_SIZE {
        (offset + BUFFER_SIZE) as usize
    } else {
        total
    }
}

/// Where the piece ends that starts at `offset` in `total` bytes.
pub fn chunk_end(offset: usize, total: usize) -> (end: usize)
    ensures
        end == piece_end(offset, total),
{
    if offset >= total {
        total
    } else if total - offset > BUFFER_SIZE {
        offset + BUFFER_SIZE
    } else {
        total
    }
}

/// Where copying stands once the archive has answered for the piece from
/// `offset` to `end`: behind the bytes that it took, if it took any; nowhere,
/// if it failed, took nothing, or claims more than it was given.
pub open spec fn progress(offset: usize, end: usize, accepted: Option<usize>) -> Option<usize> {
    match accepted {
        Some(count) => if offset <= end && 0 < count <= end - offset {
            Some((offset + count) as usize)
        } else {
            None
        },
        None => None,
    }
}

/// Where copying stands once the archive has answered for the piece from
/// `offset` to `end`.
pub fn advance(offset: usize, end: usize, accepted: Option<usize>) -> (next: Option<usize>)
    ensures
        next == progress(offset, end, accepted),
{
    match accepted {
        Some(count) => if offset <= end && 0 < count && count <= end - offset {
            Some(offset + count)
        } else {
            None
        },
        None => None,
    }
}

/// What became of a file that has a name and could be opened, told from how
/// the archive answered and how reading ended.
pub open spec fn outcome_for(started: bool, written: bool, complete: bool) -> Outcome {
    if !started {
        Outcome::Refused
    } else if !written {
        Outcome::WriteFailed
    } else if complete {
        Outcome::Copied
    } else {
        Outcome::ReadFailed
    }
}

/// What became of a file that has a name and could be opened: whether the
/// archive started its entry, whether it took all the bytes, and whether the
/// bytes are the whole file.
pub fn outcome_of(started: bool, written: bool, complete: bool) -> (outcome: Outcome)
    ensures
        outcome == outcome_for(started, written, complete),
{
    if !started {
        Outcome::Refused
    } else if !written {
        Outcome::WriteFailed
    } else if complete {
        Outcome::Copied
    } else {
        Outcome::ReadFailed
    }
}

/// Whether an archive takes all the bytes from `offset` on, when they are
/// handed to it piece by piece: each piece ends where `piece_end` says, the
/// next one starts behind the bytes that the archive took of it, and the
/// first piece of which it takes nothing ends the copy.
pub open spec fn pieces_taken(archive: Archive, bytes: Seq<u8>, offset: usize) -> bool
    decreases bytes.len() - offset,
{
    if offset >= bytes.len() {
        true
    } else {
        let end = piece_end(offset, bytes.len() as usize);
        let piece = bytes.subrange(offset as int, end as int);
        match progress(offset, end, write_answer(archive, piece)) {
            Some(next) => pieces_taken(archive_after_write(archive, piece), bytes, next),
            None => false,
        }
    }
}

/// The archive as it is left when the bytes from `offset` on have been handed
/// to it piece by piece, up to the first piece of which it takes nothing.
pub open spec fn after_pieces(archive: Archive, bytes: Seq<u8>, offset: usize) -> Archive
    decreases bytes.len() - offset,
{
    if offset >= bytes.len() {
        archive
    } else {
        let end = piece_end(offset, bytes.len() as usize);
        let piece = bytes.subrange(offset as int, end as int);
        match progress(offset, end, write_answer(archive, piece)) {
            Some(next) => after_pieces(archive_after_write(archive, piece), bytes, next),
            None => archive_after_write(archive, piece),
        }
    }
}

/// Whether copying `file` may lead from the archive `before` to the archive
/// `after` with the given outcome.
///
/// A file without an entry name is `Unresolved`, one with a name that could
/// not be opened is `Unopened`, and both leave the archive untouched. For any
/// other file the archive is asked to start an entry under the file's name:
/// the file is `Refused` exactly where it does not. Where it does, the bytes
/// go to the archive piece by piece: the file is `WriteFailed` exactly where
/// the archive does not take them all, and else `Copied` or `ReadFailed` as
/// reading the file had ended.
pub open spec fn file_copied(
    before: Archive,
    file: SourceFile,
    outcome: Outcome,
    after: Archive,
) -> bool {
    &&& file_archived(before.entries(), file, outcome, after.entries())
    &&& file.name() is None || file.content is None ==> after == before
    &&& file.name() is Some && file.content is Some ==> {
        &&& outcome == Outcome::Refused <==> !start_answer(before, file.name()->0)
        &&& outcome != Outcome::Refused ==> exists|started: Archive|
            {
                &&& #[trigger] started.entries() == before.entries().push(
                    (file.name()->0, Seq::<u8>::empty()),
                )
                &&& outcome == Outcome::WriteFailed <==> !pieces_taken(started, file.bytes(), 0)
                &&& after == after_pieces(started, file.bytes(), 0)
            }
    }
}

/// Whether copying the files in order may lead through the given archives,
/// from the first of them to the last, with the given outcomes.
pub open spec fn copied_in_turn(
    archives: Seq<Archive>,
    files: Seq<SourceFile>,
    outcomes: Seq<Outcome>,
) -> bool {
    &&& archives.len() == files.len() + 1
    &&& outcomes.len() == files.len()
    &&& forall|i: int|
        0 <= i < files.len() ==> file_copied(
            archives[i],
            #[trigger] files[i],
            outcomes[i],
            archives[i + 1],
        )
}

/// Hands the bytes to the newest entry, piece by piece, until all are taken
/// or the archive stops taking them.
fn write_pieces(archive: &mut Archive, bytes: &[u8]) -> (written: bool)
    requires
        old(archive).entries().len() > 0,
    ensures
        written == pieces_taken(*old(archive), bytes@, 0),
        *final(archive) == after_pieces(*old(archive), bytes@, 0),
        final(archive).entries().len() == old(archive).entries().len(),
        final(archive).entries().drop_last() == old(archive).entries().drop_last(),
        final(archive).entries().last().0 == old(archive).entries().last().0,
        written ==> final(archive).entries().last().1 == old(archive).entries().last().1 + bytes@,
        !written ==> exists|count: int|
            0 <= count <= bytes@.len() && final(archive).entries().last().1 == old(
                archive,
            ).entries().last().1 + #[trigger] bytes@.take(count),
{
    let ghost before = archive.entries();
    let total = bytes.len();
    let mut offset: usize = 0;
    assert(extended(before, bytes@.take(0)) =~= before);
    while offset < total
        invariant
            offset <= total,
            total == bytes@.len(),
            before.len() > 0,
            before == old(archive).entries(),
            archive.entries() == extended(before, bytes@.take(offset as int)),
            pieces_taken(*old(archive), bytes@, 0) == pieces_taken(*archive, bytes@, offset),
            after_pieces(*old(archive), bytes@, 0) == after_pieces(*archive, bytes@, offset),
        decreases total - offset,
    {
        let end = chunk_end(offset, total);
        let piece = slice_subrange(bytes, offset, end);
        let ghost held = archive.entries();
        let ghost holder = *archive;
        let accepted = zip_write(archive, piece);
        assert(pieces_taken(holder, bytes@, offset) == match progress(offset, end, accepted) {
            Some(next) => pieces_taken(*archive, bytes@, next),
            None => false,
        });
        assert(after_pieces(holder, bytes@, offset) == match progress(offset, end, accepted) {
            Some(next) => after_pieces(*archive, bytes@, next),
            None => *archive,
        });
        proof {
            let count = if accepted is Some {
                accepted->0 as int
            } else {
                choose|count: int|
                    0 <= count <= piece@.len() && archive.entries() == extended(
                        held,
                        #[trigger] piece@.take(count),
                    )
            };
            assert(bytes@.take(offset as int) + piece@.take(count) =~= bytes@.take(offset + count));
            assert((before.last().1 + bytes@.take(offset as int)) + piece@.take(count)
                =~= before.last().1 + bytes@.take(offset + count));
            assert(extended(held, piece@.take(count)) =~= extended(
                before,
                bytes@.take(offset + count),
            ));
        }
        match advance(offset, end, accepted) {
            Some(next) => {
                offset = next;
            },
            None => {
                return false;
            },
        }
    }
    assert(bytes@.take(total as int) =~= bytes@);
    true
}

/// Copies one file into the archive: starts an entry under the file's name and
/// hands it the bytes that were read of the file, at most `BUFFER_SIZE` at a
/// time. A file without a name, or one that could not be opened, leaves the
/// archive as it is.
pub fn copy_file(archive: &mut Archive, file: &SourceFile) -> (outcome: Outcome)
    ensures
        file_copied(*old(archive), *file, outcome, *final(archive)),
{
    let ghost before = archive.entries();
    let name = match get_absolute_path_string(&file.absolute) {
        Some(name) => name,
        None => {
            return Outcome::Unresolved;
        },
    };
    let content = match &file.content {
        Some(content) => content,
        None => {
            return Outcome::Unopened;
        },
    };
    let started = zip_start_file(archive, name.as_str());
    let ghost begun = *archive;
    let written = started && write_pieces(archive, content.bytes.as_slice());
    proof {
        if started {
            assert(begun.entries() == before.push((file.name()->0, Seq::<u8>::empty())));
            assert(archive.entries().drop_last() =~= before);
            if written {
                assert(archive.entries() =~= before.push((name@, content.bytes@)));
            } else {
                let count = choose|count: int|
                    0 <= count <= content.bytes@.len() && archive.entries().last().1
                        == Seq::<u8>::empty() + #[trigger] content.bytes@.take(count);
                assert(Seq::<u8>::empty() + content.bytes@.take(count) =~= content.bytes@.take(
                    count,
                ));
            }
        }
    }
    outcome_of(started, written, content.complete)
}

/// The warning that goes with the outcome of a file: none for a file that was
/// copied whole, and none for one that could not be opened.
pub fn warning(file: &SourceFile, outcome: Outcome) -> (text: Option<String>)
    ensures
        text_of(text) == warning_text(*file, outcome),
{
    match outcome {
        Outcome::Unresolved => Some(
            String::from_str("Unable to extract absolute path of ").concat(file.path.as_str()),
        ),
        Outcome::Refused => Some(String::from_str("Unable to create zip entry")),
        Outcome::ReadFailed => Some(String::from_str("Error occurred while reading file")),
        Outcome::WriteFailed => Some(String::from_str("Error occurred while writing to zip file")),
        _ => None,
    }
}

/// Copies the files into the archive, in order. A file that cannot be copied,
/// or not to its end, does not keep the others from being copied: each file
/// is copied into the archive as the files before it left it.
pub fn copy_files_to_zip(archive: &mut Archive, files: &Vec<SourceFile>) -> (outcomes: Vec<Outcome>)
    ensures
        archived(old(archive).entries(), files@, outcomes@, final(archive).entries()),
        exists|archives: Seq<Archive>|
            {
                &&& #[trigger] copied_in_turn(archives, files@, outcomes@)
                &&& archives.first() == *old(archive)
                &&& archives.last() == *final(archive)
            },
{
    let ghost before = archive.entries();
    let ghost mut archives = seq![*archive];
    let mut outcomes: Vec<Outcome> = Vec::new();
    let mut index: usize = 0;
    assert(files@.take(0) =~= Seq::<SourceFile>::empty());
    while index < files.len()
        invariant
            index <= files.len(),
            outcomes.len() == index,
            archived(before, files@.take(index as int), outcomes@, archive.entries()),
            archives.len() == index + 1,
            archives.first() == *old(archive),
            archives.last() == *archive,
            forall|i: int|
                0 <= i < index ==> file_copied(
                    archives[i],
                    #[trigger] files@[i],
                    outcomes@[i],
                    archives[i + 1],
                ),
        decreases files.len() - index,
    {
        let ghost middle = archive.entries();
        let ghost earlier = outcomes@;
        let ghost passed = archives;
        let outcome = copy_file(archive, &files[index]);
        outcomes.push(outcome);
        proof {
            archives = archives.push(*archive);
            let handled = files@.take(index + 1);
            assert(handled.drop_last() =~= files@.take(index as int));
            assert(outcomes@.drop_last() =~= earlier);
            assert(handled.last() == files@[index as int]);
            if adds_entry(handled.last(), outcome) {
                assert(archive.entries().drop_last() =~= middle);
            }
            assert forall|i: int| 0 <= i < index + 1 implies file_copied(
                archives[i],
                #[trigger] files@[i],
                outcomes@[i],
                archives[i + 1],
            ) by {
                if i < index {
                    assert(archives[i] == passed[i]);
                    assert(archives[i + 1] == passed[i + 1]);
                    assert(outcomes@[i] == earlier[i]);
                }
            }
        }
        index = index + 1;
    }
    assert(files@.take(index as int) =~= files@);
    assert(copied_in_turn(archives, files@, outcomes@));
    outcomes
}

/// Archives that copying leads through hold what `archived` says: the entries
/// of the last are those of the first and, behind them, what the files added.
pub proof fn lemma_turns_are_archived(
    archives: Seq<Archive>,
    files: Seq<SourceFile>,
    outcomes: Seq<Outcome>,
)
    requires
        copied_in_turn(archives, files, outcomes),
    ensures
        archived(archives.first().entries(), files, outcomes, archives.last().entries()),
    decreases files.len(),
{
    if files.len() > 0 {
        let last = files.len() - 1;
        let earlier_archives = archives.drop_last();
        let earlier = files.drop_last();
        let earlier_outcomes = outcomes.drop_last();
        assert forall|i: int| 0 <= i < earlier.len() implies file_copied(
            earlier_archives[i],
            #[trigger] earlier[i],
            earlier_outcomes[i],
            earlier_archives[i + 1],
        ) by {
            assert(earlier[i] == files[i]);
            assert(file_copied(archives[i], files[i], outcomes[i], archives[i + 1]));
        }
        lemma_turns_are_archived(earlier_archives, earlier, earlier_outcomes);
        assert(files.last() == files[last]);
        assert(file_copied(archives[last], files[last], outcomes[last], archives[last + 1]));
        assert(earlier_archives.last() == archives[last]);
        assert(earlier_archives.first() == archives.first());
        let middle = archives[last].entries();
        let after = archives.last().entries();
        if adds_entry(files.last(), outcomes.last()) {
            assert(after.drop_last() =~= middle);
        }
    }
}

/// Copying only adds entries: what the archive held before is still there,
/// unchanged and in front.
pub proof fn lemma_archived_keeps_entries(
    before: Seq<(Seq<char>, Seq<u8>)>,
    files: Seq<SourceFile>,
    outcomes: Seq<Outcome>,
    after: Seq<(Seq<char>, Seq<u8>)>,
)
    requires
        archived(before, files, outcomes, after),
    ensures
        before.is_prefix_of(after),
        after.len() <= before.len() + files.len(),
    decreases files.len(),
{
    if files.len() > 0 {
        let middle = if adds_entry(files.last(), outcomes.last()) {
            after.drop_last()
        } else {
            after
        };
        lemma_archived_keeps_entries(before, files.drop_last(), outcomes.drop_last(), middle);
    }
}

/// How many of the files left an entry in the archive.
pub open spec fn entry_count(files: Seq<SourceFile>, outcomes: Seq<Outcome>) -> nat
    decreases files.len(),
{
    if files.len() == 0 {
        0
    } else {
        entry_count(files.drop_last(), outcomes.drop_last()) + if adds_entry(
            files.last(),
            outcomes.last(),
        ) {
            1nat
        } else {
            0nat
        }
    }
}

/// The archive gains one entry for each file whose copy was begun, and none
/// for any other file.
pub proof fn lemma_archived_counts_entries(
    before: Seq<(Seq<char>, Seq<u8>)>,
    files: Seq<SourceFile>,
    outcomes: Seq<Outcome>,
    after: Seq<(Seq<char>, Seq<u8>)>,
)
    requires
        archived(before, files, outcomes, after),
    ensures
        after.len() == before.len() + entry_count(files, outcomes),
    decreases files.len(),
{
    if files.len() > 0 {
        let middle = if adds_entry(files.last(), outcomes.last()) {
            after.drop_last()
        } else {
            after
        };
        lemma_archived_counts_entries(before, files.drop_last(), outcomes.drop_last(), middle);
    }
}

/// Each file whose copy was begun has its own entry, behind the entries of
/// the files before it: under the file's entry name, with the bytes that were
/// read of the file, and where the archive stopped taking bytes, with a front
/// part of them.
pub proof fn lemma_file_has_its_entry(
    before: Seq<(Seq<char>, Seq<u8>)>,
    files: Seq<SourceFile>,
    outcomes: Seq<Outcome>,
    after: Seq<(Seq<char>, Seq<u8>)>,
    index: int,
)
    requires
        archived(before, files, outcomes, after),
        0 <= index < files.len(),
        adds_entry(files[index], outcomes[index]),
    ensures
        ({
            let place = (before.len() + entry_count(files.take(index), outcomes.take(index)))
                as int;
            &&& place < after.len()
            &&& after[place].0 == files[index].name()->0
            &&& after[place].1.is_prefix_of(files[index].bytes())
            &&& outcomes[index] != Outcome::WriteFailed ==> after[place].1 == files[index].bytes()
        }),
    decreases files.len(),
{
    let middle = if adds_entry(files.last(), outcomes.last()) {
        after.drop_last()
    } else {
        after
    };
    let earlier = files.drop_last();
    let earlier_outcomes = outcomes.drop_last();
    lemma_archived_counts_entries(before, earlier, earlier_outcomes, middle);
    if index == files.len() - 1 {
        assert(files.take(index) =~= earlier);
        assert(outcomes.take(index) =~= earlier_outcomes);
    } else {
        lemma_file_has_its_entry(before, earlier, earlier_outcomes, middle, index);
        assert(earlier.take(index) =~= files.take(index));
        assert(earlier_outcomes.take(index) =~= outcomes.take(index));
        assert(earlier[index] == files[index]);
        assert(earlier_outcomes[index] == outcomes[index]);
    }
}

/// Where every file was copied whole, the archive has gained exactly one
/// entry per file, in the order of the files: each under the file's entry name
/// and with the very bytes that were read of the file.
pub proof fn lemma_copied_files_are_entries(
    before: Seq<(Seq<char>, Seq<u8>)>,
    files: Seq<SourceFile>,
    outcomes: Seq<Outcome>,
    after: Seq<(Seq<char>, Seq<u8>)>,
)
    requires
        archived(before, files, outcomes, after),
        forall|i: int| 0 <= i < outcomes.len() ==> outcomes[i] == Outcome::Copied,
    ensures
        after == before + entries_of(files),
        after.len() == before.len() + files.len(),
        forall|i: int|
            0 <= i < files.len() ==> (#[trigger] files[i]).name() is Some && files[i].content
                is Some && after[before.len() + i] == entry_of(files[i]),
    decreases files.len(),
{
    if files.len() == 0 {
        assert(after =~= before + entries_of(files));
    } else {
        let middle = after.drop_last();
        let earlier = files.drop_last();
        assert(outcomes.last() == Outcome::Copied);
        lemma_copied_files_are_entries(before, earlier, outcomes.drop_last(), middle);
        assert(after =~= before + entries_of(files));
        assert forall|i: int| 0 <= i < files.len() implies (#[trigger] files[i]).name() is Some
            && files[i].content is Some && after[before.len() + i] == entry_of(files[i]) by {
            if i < earlier.len() {
                assert(earlier[i] == files[i]);
                assert(middle[before.len() + i] == after[before.len() + i]);
            }
        }
    }
}

/// What becomes of a file where the archive takes all that it is handed.
pub open spec fn settled_outcome(file: SourceFile) -> Outcome {
    if file.name() is None {
        Outcome::Unresolved
    } else if file.content is None {
        Outcome::Unopened
    } else if file.content->0.complete {
        Outcome::Copied
    } else {
        Outcome::ReadFailed
    }
}

/// The entries that the files make where the archive takes all that it is
/// handed: one for each file that has a name and could be opened.
pub open spec fn settled_entries(files: Seq<SourceFile>) -> Seq<(Seq<char>, Seq<u8>)>
    decreases files.len(),
{
    if files.len() == 0 {
        Seq::empty()
    } else if files.last().name() is Some && files.last().content is Some {
        settled_entries(files.drop_last()).push(entry_of(files.last()))
    } else {
        settled_entries(files.drop_last())
    }
}

/// Whether the archive took all that it was handed: no file was refused and
/// no copy was cut short by the archive.
pub open spec fn all_taken(outcomes: Seq<Outcome>) -> bool {
    forall|i: int|
        0 <= i < outcomes.len() ==> (#[trigger] outcomes[i]) != Outcome::Refused && outcomes[i]
            != Outcome::WriteFailed
}

/// Whether two lists of files show the same: file by file the same entry
/// name, opened or not alike, read to the end or not alike, and the same
/// bytes.
pub open spec fn same_files(files: Seq<SourceFile>, again: Seq<SourceFile>) -> bool {
    &&& files.len() == again.len()
    &&& forall|i: int|
        0 <= i < files.len() ==> {
            &&& (#[trigger] files[i]).name() == again[i].name()
            &&& files[i].content is Some <==> again[i].content is Some
            &&& files[i].content is Some ==> files[i].content->0.complete
                == again[i].content->0.complete
            &&& files[i].bytes() == again[i].bytes()
        }
}

/// Where the archive took all that it was handed, the files alone decide the
/// run: each outcome, and the entries that the archive has gained.
pub proof fn lemma_taken_files_are_settled(
    before: Seq<(Seq<char>, Seq<u8>)>,
    files: Seq<SourceFile>,
    outcomes: Seq<Outcome>,
    after: Seq<(Seq<char>, Seq<u8>)>,
)
    requires
        archived(before, files, outcomes, after),
        all_taken(outcomes),
    ensures
        after == before + settled_entries(files),
        outcomes.len() == files.len(),
        forall|i: int|
            0 <= i < files.len() ==> (#[trigger] outcomes[i]) == settled_outcome(files[i]),
    decreases files.len(),
{
    if files.len() == 0 {
        assert(after =~= before + settled_entries(files));
    } else {
        let middle = if adds_entry(files.last(), outcomes.last()) {
            after.drop_last()
        } else {
            after
        };
        let earlier = files.drop_last();
        let earlier_outcomes = outcomes.drop_last();
        assert(outcomes.last() == outcomes[outcomes.len() - 1]);
        assert forall|i: int| 0 <= i < earlier_outcomes.len() implies (
        #[trigger] earlier_outcomes[i]) != Outcome::Refused && earlier_outcomes[i]
            != Outcome::WriteFailed by {
            assert(earlier_outcomes[i] == outcomes[i]);
        }
        lemma_taken_files_are_settled(before, earlier, earlier_outcomes, middle);
        assert(after =~= before + settled_entries(files));
        assert forall|i: int| 0 <= i < files.len() implies (#[trigger] outcomes[i])
            == settled_outcome(files[i]) by {
            if i < earlier.len() {
                assert(earlier_outcomes[i] == outcomes[i]);
                assert(earlier[i] == files[i]);
            }
        }
    }
}

/// Files that show the same make the same entries.
pub proof fn lemma_same_files_settle_alike(files: Seq<SourceFile>, again: Seq<SourceFile>)
    requires
        same_files(files, again),
    ensures
        settled_entries(files) == settled_entries(again),
        forall|i: int|
            0 <= i < files.len() ==> settled_outcome(#[trigger] files[i]) == settled_outcome(
                again[i],
            ),
    decreases files.len(),
{
    if files.len() > 0 {
        let earlier = files.drop_last();
        let earlier_again = again.drop_last();
        assert forall|i: int| 0 <= i < earlier.len() implies {
            &&& (#[trigger] earlier[i]).name() == earlier_again[i].name()
            &&& earlier[i].content is Some <==> earlier_again[i].content is Some
            &&& earlier[i].content is Some ==> earlier[i].content->0.complete
                == earlier_again[i].content->0.complete
            &&& earlier[i].bytes() == earlier_again[i].bytes()
        } by {
            assert(earlier[i] == files[i]);
            assert(earlier_again[i] == again[i]);
        }
        lemma_same_files_settle_alike(earlier, earlier_again);
        assert(files.last() == files[files.len() - 1]);
        assert(again.last() == again[files.len() - 1]);
    }
}

/// Copying is repeatable: two runs over files that show the same, in neither
/// of which the archive refused a file or cut a copy short, have the same
/// outcomes and add the same entries.
pub proof fn lemma_copying_is_repeatable(
    before: Seq<(Seq<char>, Seq<u8>)>,
    files: Seq<SourceFile>,
    first_outcomes: Seq<Outcome>,
    first: Seq<(Seq<char>, Seq<u8>)>,
    again: Seq<SourceFile>,
    second_outcomes: Seq<Outcome>,
    second: Seq<(Seq<char>, Seq<u8>)>,
)
    requires
        archived(before, files, first_outcomes, first),
        archived(before, again, second_outcomes, second),
        all_taken(first_outcomes),
        all_taken(second_outcomes),
        same_files(files, again),
    ensures
        first == second,
        first_outcomes == second_outcomes,
{
    lemma_taken_files_are_settled(before, files, first_outcomes, first);
    lemma_taken_files_are_settled(before, again, second_outcomes, second);
    lemma_same_files_settle_alike(files, again);
    assert(first_outcomes =~= second_outcomes) by {
        assert forall|i: int| 0 <= i < first_outcomes.len() implies first_outcomes[i]
            == second_outcomes[i] by {
            assert(first_outcomes[i] == settled_outcome(files[i]));
            assert(second_outcomes[i] == settled_outcome(again[i]));
        }
    }
}

} // verus!
