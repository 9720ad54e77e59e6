//! Writing a tar archive.
//!
//! The archive is written by the `tar` crate into memory. In contracts an
//! archive under construction is the sequence of the entries that were
//! appended to it.

use crate::error::{ErrorView, SkeletonError};
use crate::views::views;
use tar::{Builder, Header};
use vstd::prelude::*;

verus! {

/// An archive under construction: a `tar::Builder` that writes into
/// memory.
#[verifier::external_body]
pub struct ArchiveWriter {
    builder: Builder<Vec<u8>>,
}

/// What the header of an entry records of a file, besides its path and
/// size.
#[derive(Debug, Clone, Copy, PartialEq, Eq, Structural)]
pub struct FileMeta {
    /// The permission bits.
    pub mode: u32,
    /// The time of the last modification, in seconds since the epoch.
    pub mtime: u64,
    /// The owner.
    pub uid: u64,
    /// The group.
    pub gid: u64,
}

/// A file for the archive.
#[derive(Debug)]
pub struct ArchiveEntry {
    /// The path of the file, relative to the root of the workspace.
    pub path: String,
    /// What the header records of the file.
    pub meta: FileMeta,
    /// The contents of the file.
    pub contents: Vec<u8>,
}

impl Clone for ArchiveEntry {
    fn clone(&self) -> (copy: Self)
        ensures
            copy@ == self@,
    {
        let mut contents: Vec<u8> = Vec::new();
        let mut i: usize = 0;
        while i < self.contents.len()
            invariant
                i <= self.contents@.len(),
                contents@ == self.contents@.take(i as int),
            decreases self.contents@.len() - i,
        {
            contents.push(self.contents[i]);
            assert(contents@ =~= self.contents@.take(i + 1));
            i = i + 1;
        }
        assert(self.contents@.take(i as int) =~= self.contents@);
        ArchiveEntry { path: self.path.clone(), meta: self.meta, contents }
    }
}

/// A file for the archive, in contracts.
pub struct EntryView {
    pub path: Seq<char>,
    pub meta: FileMeta,
    pub contents: Seq<u8>,
}

impl View for ArchiveEntry {
    type V = EntryView;

    open spec fn view(&self) -> EntryView {
        EntryView { path: self.path@, meta: self.meta, contents: self.contents@ }
    }
}

/// The entries that were appended to the archive that `writer` writes.
pub uninterp spec fn archive_entries(writer: ArchiveWriter) -> Seq<EntryView>;

/// Whether `tar::Builder::append_data` takes an entry with the path `path`.
pub uninterp spec fn tar_accepts(path: Seq<char>) -> bool;

/// The bytes of the finished archive with the given entries, as
/// `tar::Builder::into_inner` hands them out; `None` where it fails.
pub uninterp spec fn tar_bytes(entries: Seq<EntryView>) -> Option<Seq<u8>>;

/// The bytes of an optional vector.
pub open spec fn optional_bytes(bytes: Option<Vec<u8>>) -> Option<Seq<u8>> {
    match bytes {
        Some(bytes) => Some(bytes@),
        None => None,
    }
}

/// A writer of an archive into memory, with no entries yet.
///
/// Calls `tar::Builder::new` on an empty vector.
#[verifier::external_body]
fn new_writer() -> (writer: ArchiveWriter)
    ensures
        archive_entries(writer) == Seq::<EntryView>::empty(),
{
    ArchiveWriter { builder: Builder::new(Vec::new()) }
}

/// Appends an entry to the archive.
///
/// Makes a GNU header with `tar::Header::new_gnu`, sets size, mode,
/// modification time, owner and group in it, and calls
/// `tar::Builder::append_data` with the header, the path and the contents.
/// That function sets the path and the checksum, writes a long-name entry
/// first where the path does not fit the header, and fails before it writes
/// anything where it refuses the path. The contract claims that whether it
/// fails depends on the path alone, that an entry that was taken stands
/// last in the archive, and that nothing changes where it was refused.
#[verifier::external_body]
fn append_entry(writer: &mut ArchiveWriter, entry: &ArchiveEntry) -> (accepted: bool)
    ensures
        accepted == tar_accepts(entry@.path),
        archive_entries(*final(writer)) == if accepted {
            archive_entries(*old(writer)).push(entry@)
        } else {
            archive_entries(*old(writer))
        },
{
    let mut header = Header::new_gnu();
    header.set_size(entry.contents.len() as u64);
    header.set_mode(entry.meta.mode);
    header.set_mtime(entry.meta.mtime);
    header.set_uid(entry.meta.uid);
    header.set_gid(entry.meta.gid);
    writer.builder.append_data(&mut header, entry.path.as_str(), entry.contents.as_slice()).is_ok()
}

/// Finishes the archive and hands out its bytes.
///
/// Calls `tar::Builder::into_inner`, which writes the end of the archive.
/// The contract claims that the bytes depend on the entries alone.
#[verifier::external_body]
fn finish_archive(writer: ArchiveWriter) -> (bytes: Option<Vec<u8>>)
    ensures
        optional_bytes(bytes) == tar_bytes(archive_entries(writer)),
{
    writer.builder.into_inner().ok()
}

/// The position of the first of the entries whose path the archive writer
/// refuses.
pub open spec fn first_refused(entries: Seq<EntryView>) -> Option<int>
    decreases entries.len(),
{
    if entries.len() == 0 {
        None
    } else {
        match first_refused(entries.drop_last()) {
            Some(i) => Some(i),
            None => if tar_accepts(entries.last().path) {
                None
            } else {
                Some(entries.len() - 1)
            },
        }
    }
}

/// The archive with the given entries, in their order.
///
/// Fails with the path of the first entry that the archive writer refuses,
/// and with no path where the writer cannot finish the archive.
pub open spec fn archive_of(entries: Seq<EntryView>) -> Result<Seq<u8>, ErrorView> {
    match first_refused(entries) {
        Some(i) => Err(ErrorView::ArchiveRefused(Some(entries[i].path))),
        None => match tar_bytes(entries) {
            Some(bytes) => Ok(bytes),
            None => Err(ErrorView::ArchiveRefused(None)),
        },
    }
}

/// Where one of the first `k` entries is refused, the first entry that is
/// refused is among them.
pub proof fn lemma_first_refused_prefix(entries: Seq<EntryView>, k: int)
    requires
        0 <= k <= entries.len(),
        first_refused(entries.take(k)) is Some,
    ensures
        first_refused(entries) == first_refused(entries.take(k)),
    decreases entries.len() - k,
{
    if k == entries.len() {
        assert(entries.take(k) =~= entries);
    } else {
        assert(entries.take(k + 1).drop_last() =~= entries.take(k));
        lemma_first_refused_prefix(entries, k + 1);
    }
}

/// Writes the archive with the given entries, in their order.
pub fn write_archive(entries: &Vec<ArchiveEntry>) -> (written: Result<Vec<u8>, SkeletonError>)
    ensures
        match written {
            Ok(bytes) => archive_of(views(entries@)) == Ok::<_, ErrorView>(bytes@),
            Err(error) => archive_of(views(entries@)) == Err::<Seq<u8>, _>(error@),
        },
{
    let mut writer = new_writer();
    let mut i: usize = 0;
    assert(views(entries@).take(0) =~= Seq::<EntryView>::empty());
    while i < entries.len()
        invariant
            i <= entries@.len(),
            archive_entries(writer) == views(entries@).take(i as int),
            first_refused(views(entries@).take(i as int)) is None,
        decreases entries@.len() - i,
    {
        assert(views(entries@).take(i + 1).drop_last() =~= views(entries@).take(i as int));
        assert(views(entries@).take(i + 1).last() == entries@[i as int]@);
        if !append_entry(&mut writer, &entries[i]) {
            proof {
                assert(first_refused(views(entries@).take(i + 1)) == Some(i as int));
                lemma_first_refused_prefix(views(entries@), i + 1);
            }
            return Err(SkeletonError::ArchiveRefused(Some(entries[i].path.clone())));
        }
        assert(views(entries@).take(i as int).push(entries@[i as int]@) =~= views(
            entries@,
        ).take(i + 1));
        i = i + 1;
    }
    assert(views(entries@).take(i as int) =~= views(entries@));
    match finish_archive(writer) {
        Some(bytes) => Ok(bytes),
        None => Err(SkeletonError::ArchiveRefused(None)),
    }
}

} // verus!
