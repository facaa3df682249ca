//! The limits that a driver archive's entries must keep, checked entry by
//! entry while the archive is extracted.

use vstd::prelude::*;

use crate::error::InstallError;

verus! {

/// The most entries an archive may hold.
pub const MAX_DRIVER_FILES: usize = 1024;

/// The most bytes that an archive's entries may add up to (512 MiB).
pub const MAX_DRIVER_SIZE: u64 = 512 * 1024 * 1024;

/// What the extractor knows of one archive entry before writing it.
#[derive(Debug)]
pub struct ArchiveEntry {
    /// The entry's uncompressed size.
    pub size: u64,
    /// The Unix mode bits stored with the entry, if any.
    pub unix_mode: Option<u32>,
    /// The entry's name as a relative path that stays inside the
    /// extraction directory, or `None` where no such path exists.
    pub enclosed_name: Option<String>,
    /// Whether the entry is a directory.
    pub is_dir: bool,
}

/// What to do with an accepted entry.
#[derive(Debug, Clone, Copy, PartialEq, Eq)]
pub enum EntryKind {
    Directory,
    File,
}

/// Mode bits that mark a symbolic link (`S_IFLNK` under the `S_IFMT` mask).
pub open spec fn is_symlink_mode(mode: u32) -> bool {
    mode & 0o170000u32 == 0o120000u32
}

/// Only the symbolic-link file type counts as a link: directories
/// (`S_IFDIR`) and regular files (`S_IFREG`) never do, whatever their
/// permission bits, and a mode is a link exactly when its file-type bits
/// (`S_IFMT`) are those of a link (`S_IFLNK`).
pub proof fn lemma_symlink_modes(m: u32)
    ensures
        is_symlink_mode(m) <==> (m & 0o170000u32) == 0o120000u32,
        (m & 0o170000u32) == 0o040000u32 ==> !is_symlink_mode(m),
        (m & 0o170000u32) == 0o100000u32 ==> !is_symlink_mode(m),
        !is_symlink_mode(0o040755u32),
        !is_symlink_mode(0o100644u32),
        is_symlink_mode(0o120777u32),
{
    assert((0o040755u32 & 0o170000u32) == 0o040000u32) by (bit_vector);
    assert((0o100644u32 & 0o170000u32) == 0o100000u32) by (bit_vector);
    assert((0o120777u32 & 0o170000u32) == 0o120000u32) by (bit_vector);
}

/// An entry whose stored mode marks it as a symbolic link.
pub open spec fn is_symlink_entry(e: ArchiveEntry) -> bool {
    match e.unix_mode {
        Some(mode) => is_symlink_mode(mode),
        None => false,
    }
}

/// Refuses an archive with more than `MAX_DRIVER_FILES` entries.
pub fn check_entry_count(count: usize) -> (r: Result<(), InstallError>)
    ensures
        count > MAX_DRIVER_FILES ==> r == Err::<(), InstallError>(InstallError::TooManyFiles),
        count <= MAX_DRIVER_FILES ==> r == Ok::<(), InstallError>(()),
{
    if count > MAX_DRIVER_FILES {
        Err(InstallError::TooManyFiles)
    } else {
        Ok(())
    }
}

/// Takes the next entry, given the total size of the entries accepted
/// before it. The entry is refused, in this order, when the new total
/// would exceed `MAX_DRIVER_SIZE`, when it is a symbolic link, and when it
/// has no safe name; otherwise the new total and the entry's kind come back.
/// So the total of the accepted entries never exceeds the limit.
pub fn check_entry(total_size: u64, entry: &ArchiveEntry) -> (r: Result<
    (u64, EntryKind),
    InstallError,
>)
    ensures
        total_size + entry.size > MAX_DRIVER_SIZE ==> r == Err::<(u64, EntryKind), InstallError>(
            InstallError::TooLarge,
        ),
        total_size + entry.size <= MAX_DRIVER_SIZE && is_symlink_entry(*entry) ==> r == Err::<
            (u64, EntryKind),
            InstallError,
        >(InstallError::SymbolicLink),
        total_size + entry.size <= MAX_DRIVER_SIZE && !is_symlink_entry(*entry)
            && entry.enclosed_name is None ==> r == Err::<(u64, EntryKind), InstallError>(
            InstallError::UnsafePath,
        ),
        total_size + entry.size <= MAX_DRIVER_SIZE && !is_symlink_entry(*entry)
            && entry.enclosed_name is Some ==> r == Ok::<(u64, EntryKind), InstallError>(
            (
                (total_size + entry.size) as u64,
                if entry.is_dir {
                    EntryKind::Directory
                } else {
                    EntryKind::File
                },
            ),
        ),
        r matches Ok((t, _)) ==> t <= MAX_DRIVER_SIZE,
        total_size + entry.size <= MAX_DRIVER_SIZE && entry.enclosed_name is Some && (
        entry.unix_mode matches Some(m) ==> m & 0o170000u32 != 0o120000u32) ==> r is Ok,
        r == Err::<(u64, EntryKind), InstallError>(InstallError::SymbolicLink) ==> (
        entry.unix_mode matches Some(m) && m & 0o170000u32 == 0o120000u32),
        r matches Ok((t, k)) ==> t == total_size + entry.size && (k == EntryKind::Directory
            <==> entry.is_dir),
{
    let total = match total_size.checked_add(entry.size) {
        Some(t) => t,
        None => {
            return Err(InstallError::TooLarge);
        },
    };
    if total > MAX_DRIVER_SIZE {
        return Err(InstallError::TooLarge);
    }
    if let Some(mode) = entry.unix_mode {
        if mode & 0o170000u32 == 0o120000u32 {
            return Err(InstallError::SymbolicLink);
        }
    }
    if entry.enclosed_name.is_none() {
        return Err(InstallError::UnsafePath);
    }
    let kind = if entry.is_dir {
        EntryKind::Directory
    } else {
        EntryKind::File
    };
    Ok((total, kind))
}

} // verus!
