//! Records of files, and the plans of what is to be done to files on disk.
//!
//! Nothing here touches the disk. A function that needs to know what is on
//! disk takes it as an argument; a function that changes the disk returns
//! the steps to take, and the caller takes them.

use vstd::prelude::*;
use crate::IronCarrierError;
use crate::config::Config;
use crate::path::has_file_name;
use crate::path::join;
use crate::path::join_path;
use crate::parts::is_special;
use crate::parts::lemma_temp_path_is_special;
use crate::parts::names_scratch_file;
use crate::path::parent;
use crate::path::parent_of;
use crate::path::precedes;
use crate::path::sorts_before;
use crate::path::temp_path;
use crate::path::temp_path_of;
use crate::text::bytes;
use crate::text::lemma_bytes_injective;
use crate::time::ClockTime;
use crate::time::FileMtime;
use crate::time::MAX_FILE_SECS;
use crate::time::file_time_from_secs;
use crate::time::now;
use crate::time::secs_since_epoch;
use crate::time::stamp_of;
use crate::time::system_time_to_secs;
use crate::time::valid_if_there;

verus! {

/// What was read of a file on disk.
#[derive(Clone, Copy, Debug)]
pub struct Metadata {
    /// When the file was created, where the filesystem could tell.
    pub created: Option<ClockTime>,
    /// When the file was last modified, where the filesystem could tell.
    pub modified: Option<ClockTime>,
    /// The length of the file in bytes.
    pub len: u64,
}

impl Metadata {
    /// The times that were read are valid readings.
    pub open spec fn valid(self) -> bool {
        valid_if_there(self.created) && valid_if_there(self.modified)
    }
}

/// Holds the information for a file inside a mapped folder.
///
/// If the file exists, `modified_at`, `created_at` and `size` are set;
/// otherwise only `deleted_at` is.
///
/// The `path` is always relative to the root folder of the alias, so that it
/// is the same on every machine.
#[derive(Debug, Clone)]
pub struct FileInfo {
    /// Root folder alias
    pub alias: String,
    /// File path, relative to the alias root
    pub path: String,
    pub modified_at: Option<u64>,
    pub created_at: Option<u64>,
    pub deleted_at: Option<u64>,
    pub size: Option<u64>,
}

/// A record as the contracts see it: the alias as text, the path as the
/// bytes by which paths are ordered and matched.
pub struct FileView {
    pub alias: Seq<char>,
    pub path: Seq<u8>,
    pub modified_at: Option<u64>,
    pub created_at: Option<u64>,
    pub deleted_at: Option<u64>,
    pub size: Option<u64>,
}

impl FileView {
    /// The record that a scan makes of a file with this metadata.
    pub open spec fn live(alias: Seq<char>, path: Seq<u8>, metadata: Metadata) -> FileView {
        FileView {
            alias,
            path,
            modified_at: stamp_of(metadata.modified),
            created_at: stamp_of(metadata.created),
            deleted_at: None,
            size: Some(metadata.len),
        }
    }

    /// The record of a deletion that was seen at `at`.
    pub open spec fn tombstone(alias: Seq<char>, path: Seq<u8>, at: ClockTime) -> FileView {
        FileView {
            alias,
            path,
            modified_at: None,
            created_at: None,
            deleted_at: secs_since_epoch(at),
            size: None,
        }
    }
}

impl View for FileInfo {
    type V = FileView;

    open spec fn view(&self) -> FileView {
        FileView {
            alias: self.alias@,
            path: bytes(self.path@),
            modified_at: self.modified_at,
            created_at: self.created_at,
            deleted_at: self.deleted_at,
            size: self.size,
        }
    }
}

impl FileInfo {
    /// The key by which records are told apart and ordered: the bytes of
    /// the path, and nothing else.
    pub open spec fn key(self) -> Seq<u8> {
        bytes(self.path@)
    }

    /// A record of a file that exists.
    pub open spec fn is_live(self) -> bool {
        self.modified_at is Some && self.created_at is Some && self.size is Some
            && self.deleted_at is None
    }

    /// A record of a deletion: it carries the time of the deletion and
    /// nothing of the file.
    pub open spec fn is_tombstone(self) -> bool {
        self.modified_at is None && self.created_at is None && self.size is None
            && self.deleted_at is Some
    }

    /// Every record stands for a file or for a deletion, never for both and
    /// never for neither.
    pub open spec fn well_formed(self) -> bool {
        self.is_live() || self.is_tombstone()
    }

    /// The record that a scan makes of a file with this metadata.
    pub open spec fn live(alias: String, path: String, metadata: Metadata) -> FileInfo {
        FileInfo {
            alias,
            path,
            modified_at: stamp_of(metadata.modified),
            created_at: stamp_of(metadata.created),
            deleted_at: None,
            size: Some(metadata.len),
        }
    }

    /// The record of a deletion that was seen at `at`.
    pub open spec fn tombstone(alias: String, path: String, at: ClockTime) -> FileInfo {
        FileInfo {
            alias,
            path,
            modified_at: None,
            created_at: None,
            deleted_at: secs_since_epoch(at),
            size: None,
        }
    }

    /// Makes the record of a file that exists. A time that the filesystem
    /// did not give, or that lies before the epoch, is left out.
    pub fn new(alias: String, relative_path: String, metadata: Metadata) -> (record: FileInfo)
        requires
            metadata.valid(),
        ensures
            record == FileInfo::live(alias, relative_path, metadata),
            record.well_formed() <==> stamp_of(metadata.modified) is Some && stamp_of(
                metadata.created,
            ) is Some,
    {
        let created_at = match metadata.created {
            Some(time) => system_time_to_secs(time),
            None => None,
        };
        let modified_at = match metadata.modified {
            Some(time) => system_time_to_secs(time),
            None => None,
        };
        FileInfo {
            alias,
            path: relative_path,
            modified_at,
            created_at,
            deleted_at: None,
            size: Some(metadata.len),
        }
    }

    /// Makes the record of a deletion that was seen at `at`. The record is a
    /// tombstone unless `at` lies before the epoch: then it carries no time
    /// at all.
    pub fn new_deleted_at(alias: String, relative_path: String, at: ClockTime) -> (record: FileInfo)
        requires
            at.valid(),
        ensures
            record == FileInfo::tombstone(alias, relative_path, at),
            record.well_formed() <==> at is SinceEpoch,
            record.is_tombstone() <==> at is SinceEpoch,
    {
        FileInfo {
            alias,
            path: relative_path,
            modified_at: None,
            created_at: None,
            deleted_at: system_time_to_secs(at),
            size: None,
        }
    }

    /// Makes the record of a deletion. Where `deleted_at` is missing the
    /// deletion is stamped with the time that the system clock shows.
    pub fn new_deleted(alias: String, relative_path: String, deleted_at: Option<ClockTime>) -> (record:
        FileInfo)
        requires
            valid_if_there(deleted_at),
        ensures
            deleted_at matches Some(at) ==> record == FileInfo::tombstone(alias, relative_path, at),
            deleted_at is None ==> exists|at: ClockTime|
                at.valid() && record == FileInfo::tombstone(alias, relative_path, at),
    {
        let at = match deleted_at {
            Some(at) => at,
            None => now(),
        };
        FileInfo::new_deleted_at(alias, relative_path, at)
    }

    /// Where the file of this record lies on this machine: its path below
    /// the root folder of its alias. There is no such place if the alias
    /// is not configured or its root folder could not be made canonical.
    pub open spec fn absolute_path(self, config: Config) -> Option<Seq<u8>> {
        match config.root_of(self.alias@) {
            Some(root) => Some(join(root, self.key())),
            None => None,
        }
    }

    /// Whether `error` says that the alias of this record is not available.
    pub open spec fn unavailable(self, error: IronCarrierError) -> bool {
        error matches IronCarrierError::AliasNotAvailable(alias) && alias@ == self.alias@
    }

    /// Returns the absolute path of the file on this machine: the root
    /// folder that `config` holds for the alias, with the path of the
    /// record appended as it is. Fails with `AliasNotAvailable` if the alias
    /// is not configured or its root folder could not be made canonical.
    pub fn get_absolute_path(&self, config: &Config) -> (result: Result<String, IronCarrierError>)
        ensures
            match result {
                Ok(path) => self.absolute_path(*config) == Some(bytes(path@)),
                Err(error) => self.absolute_path(*config) is None && self.unavailable(error),
            },
    {
        match config.root(self.alias.as_str()) {
            Some(root) => Ok(join_path(root.as_str(), self.path.as_str())),
            None => Err(IronCarrierError::AliasNotAvailable(self.alias.clone())),
        }
    }

    /// Decides whether the local copy of a file is newer than this record,
    /// which a peer sent. `local` is what was read of the file at
    /// `get_absolute_path`, or `None` if nothing could be read there.
    ///
    /// A deletion always counts as news: the answer for a tombstone is
    /// `true`, whatever is on disk. Otherwise the local copy is newer only
    /// if its place is known, its time of modification could be read, and
    /// that time is later than the record's by a second or more.
    ///
    /// A record of a file must carry its time of modification.
    pub fn is_local_file_newer(&self, config: &Config, local: Option<Metadata>) -> (newer: bool)
        requires
            self.deleted_at is Some || self.modified_at is Some,
            local matches Some(metadata) ==> metadata.valid(),
        ensures
            self.deleted_at is Some ==> newer,
            self.deleted_at is None ==> newer == (self.absolute_path(*config) is Some && (
            local matches Some(metadata) && (stamp_of(metadata.modified) matches Some(seconds)
                && seconds > self.modified_at->Some_0))),
    {
        if self.deleted_at.is_some() {
            return true;
        }
        if config.root(self.alias.as_str()).is_none() {
            return false;
        }
        let modified = match local {
            Some(metadata) => metadata.modified,
            None => None,
        };
        let seconds = match modified {
            Some(time) => system_time_to_secs(time),
            None => None,
        };
        match (seconds, self.modified_at) {
            (Some(local_secs), Some(remote_secs)) => local_secs > remote_secs,
            _ => false,
        }
    }

    /// A copy of the record, field by field.
    pub fn duplicate(&self) -> (copy: FileInfo)
        ensures
            copy == *self,
    {
        FileInfo {
            alias: self.alias.clone(),
            path: self.path.clone(),
            modified_at: self.modified_at,
            created_at: self.created_at,
            deleted_at: self.deleted_at,
            size: self.size,
        }
    }

    /// Whether two records stand for the same file slot: they do when their
    /// paths are the same, whatever else they hold.
    pub fn same_path(&self, other: &FileInfo) -> (same: bool)
        ensures
            same == (self.path@ == other.path@),
            same == (self.key() == other.key()),
    {
        proof {
            if self.key() == other.key() {
                lemma_bytes_injective(self.path@, other.path@);
            }
        }
        self.path == other.path
    }

    /// Whether this record comes strictly before `other` in a snapshot. The
    /// order is that of the paths alone.
    pub fn comes_before(&self, other: &FileInfo) -> (before: bool)
        ensures
            before == precedes(self.key(), other.key()),
    {
        sorts_before(self.path.as_str(), other.path.as_str())
    }
}

/// Returns true if the name of the file at `path` ends with the reserved
/// suffix `ironcarrier`, as it does when the suffix is the whole name or the
/// extension. Such a file is the scratch file of a transfer in flight. The
/// name is the last component of the path: separators and `.` behind it do
/// not count, and a path that ends with `..` has none.
pub fn is_special_file(path: &str) -> (special: bool)
    ensures
        special == is_special(bytes(path@)),
{
    names_scratch_file(path)
}

/// What stands at a path on disk.
#[derive(Clone, Copy, Debug)]
pub enum PathKind {
    /// Nothing.
    Missing,
    /// A folder.
    Directory,
    /// A file, or anything else that is not a folder.
    File,
}

/// What is to be done on disk to delete a file.
#[derive(Debug)]
pub enum DeleteAction {
    /// Nothing: the file is gone already.
    Nothing,
    /// Remove the folder at this path with all that it holds.
    RemoveDirAll(String),
    /// Remove the file at this path.
    RemoveFile(String),
}

/// A move on disk, as one atomic rename.
#[derive(Debug)]
pub struct Rename {
    pub from: String,
    pub to: String,
}

/// The scratch file into which the content of a file is received.
#[derive(Debug)]
pub struct TempFile {
    /// The path of the scratch file, to be created or emptied.
    pub path: String,
    /// The folder that holds it, to be created first if it is missing.
    pub parent: Option<String>,
}

/// The two steps that put a received file in place.
#[derive(Debug)]
pub struct Commit {
    /// The rename of the scratch file onto the final path, to be done first.
    pub rename: Rename,
    /// The time of modification to set on the final path afterwards.
    /// `None` where the time of the record is one that this system cannot
    /// give to a file: the commit then fails, after the rename.
    pub mtime: Option<FileMtime>,
}

/// The bytes of a text that may be missing.
pub open spec fn optional_bytes(text: Option<String>) -> Option<Seq<u8>> {
    match text {
        Some(text) => Some(bytes(text@)),
        None => None,
    }
}

/// Plans the deletion of the file of `file_info`, given what `found` says
/// stands at its absolute path.
///
/// Deleting what is not there is no error: nothing is done. A folder goes
/// with all that it holds. Fails with `AliasNotAvailable` if the place of
/// the file is not known, whatever `found` says.
pub fn delete_file(file_info: &FileInfo, config: &Config, found: PathKind) -> (result: Result<
    DeleteAction,
    IronCarrierError,
>)
    ensures
        match result {
            Ok(action) => file_info.absolute_path(*config) matches Some(place) && match found {
                PathKind::Missing => action is Nothing,
                PathKind::Directory => action matches DeleteAction::RemoveDirAll(path) && bytes(
                    path@,
                ) == place,
                PathKind::File => action matches DeleteAction::RemoveFile(path) && bytes(path@)
                    == place,
            },
            Err(error) => file_info.absolute_path(*config) is None && file_info.unavailable(error),
        },
{
    let path = match file_info.get_absolute_path(config) {
        Ok(path) => path,
        Err(error) => {
            return Err(error);
        },
    };
    match found {
        PathKind::Missing => Ok(DeleteAction::Nothing),
        PathKind::Directory => Ok(DeleteAction::RemoveDirAll(path)),
        PathKind::File => Ok(DeleteAction::RemoveFile(path)),
    }
}

/// Plans the move of the file of `src_file` to the place of `dest_file`.
///
/// Fails with `AliasNotAvailable` if the place of either is not known; if
/// neither is, the error names the alias of `src_file`.
pub fn move_file(src_file: &FileInfo, dest_file: &FileInfo, config: &Config) -> (result: Result<
    Rename,
    IronCarrierError,
>)
    ensures
        match result {
            Ok(rename) => src_file.absolute_path(*config) == Some(bytes(rename.from@))
                && dest_file.absolute_path(*config) == Some(bytes(rename.to@)),
            Err(error) => if src_file.absolute_path(*config) is None {
                src_file.unavailable(error)
            } else {
                dest_file.absolute_path(*config) is None && dest_file.unavailable(error)
            },
        },
{
    let from = match src_file.get_absolute_path(config) {
        Ok(path) => path,
        Err(error) => {
            return Err(error);
        },
    };
    let to = match dest_file.get_absolute_path(config) {
        Ok(path) => path,
        Err(error) => {
            return Err(error);
        },
    };
    Ok(Rename { from, to })
}

/// Plans the scratch file into which the content of the file of
/// `file_info` is received: it lies beside the final path and has the
/// reserved suffix for its extension, so no scan takes it for a file.
///
/// Fails with `AliasNotAvailable` if the place of the file is not known.
pub fn get_temp_file(file_info: &FileInfo, config: &Config) -> (result: Result<
    TempFile,
    IronCarrierError,
>)
    ensures
        match result {
            Ok(temp) => file_info.absolute_path(*config) matches Some(place) && bytes(temp.path@)
                == temp_path(place) && optional_bytes(temp.parent) == parent(temp_path(place)) && (
            has_file_name(place) ==> is_special(bytes(temp.path@))),
            Err(error) => file_info.absolute_path(*config) is None && file_info.unavailable(error),
        },
{
    let final_path = match file_info.get_absolute_path(config) {
        Ok(path) => path,
        Err(error) => {
            return Err(error);
        },
    };
    let path = temp_path_of(final_path.as_str());
    let parent = parent_of(path.as_str());
    proof {
        if has_file_name(bytes(final_path@)) {
            lemma_temp_path_is_special(bytes(final_path@));
        }
    }
    Ok(TempFile { path, parent })
}

/// Plans the steps that put a received file in place: the scratch file is
/// renamed onto the final path, which replaces what was there in one step,
/// and then the final path is given the time of modification of the record.
///
/// Fails with `AliasNotAvailable` if the place of the file is not known.
/// The record must carry a time of modification, as every record of a file
/// does. Where that time is beyond what this system can give to a file the
/// plan holds no time to set.
pub fn flush_temp_file(file_info: &FileInfo, config: &Config) -> (result: Result<
    Commit,
    IronCarrierError,
>)
    requires
        file_info.modified_at is Some,
    ensures
        match result {
            Ok(commit) => {
                &&& file_info.absolute_path(*config) matches Some(place)
                &&& bytes(commit.rename.from@) == temp_path(place)
                &&& bytes(commit.rename.to@) == place
                &&& commit.mtime matches Some(time) ==> Some(time.seconds as u64)
                    == file_info.modified_at && time.seconds >= 0 && time.nanos == 0
                &&& file_info.modified_at->Some_0 > MAX_FILE_SECS ==> commit.mtime is None
            },
            Err(error) => file_info.absolute_path(*config) is None && file_info.unavailable(error),
        },
{
    let final_path = match file_info.get_absolute_path(config) {
        Ok(path) => path,
        Err(error) => {
            return Err(error);
        },
    };
    let temp = temp_path_of(final_path.as_str());
    let mtime = match file_info.modified_at {
        Some(seconds) => if seconds <= MAX_FILE_SECS {
            file_time_from_secs(seconds)
        } else {
            None
        },
        None => None,
    };
    Ok(Commit { rename: Rename { from: temp, to: final_path }, mtime })
}

} // verus!
