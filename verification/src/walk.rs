//! The decisions of a scan.
//!
//! A scan walks the tree below a root folder and gathers one record for
//! every file that it finds and one for every deletion that the deletion log
//! remembers. Reading folders is left to the caller; a [`TreeWalk`] tells it
//! which folder to read next, takes each entry that was found there and
//! decides what becomes of it.

use vstd::prelude::*;
use crate::crypto::calculate_hash;
use crate::crypto::fingerprint;
use crate::fs::FileInfo;
use crate::fs::FileView;
use crate::fs::Metadata;
use crate::fs::is_special_file;
use crate::parts::is_special;
use crate::path::join;
use crate::path::join_path;
use crate::sort::at_path;
use crate::sort::distinct_paths;
use crate::sort::is_snapshot_of;
use crate::sort::lemma_at_path_absent;
use crate::sort::lemma_at_path_holds;
use crate::sort::lemma_at_path_members;
use crate::sort::lemma_at_path_single;
use crate::sort::lemma_strictly_sorted;
use crate::sort::snapshot_of;
use crate::sort::sort_by_path;
use crate::sort::stands_alone;
use crate::sort::strictly_sorted_by_path;
use crate::text::bytes;
use crate::time::ClockTime;

verus! {

/// A deletion that the deletion log remembers.
#[derive(Debug, Clone)]
pub struct Deletion {
    /// The path of the deleted file, relative to the root folder.
    pub path: String,
    /// When the file was deleted.
    pub at: ClockTime,
}

/// No path stands twice in the deletion log: it is the map from path to
/// time of deletion that it is meant to be.
pub open spec fn distinct_deletions(deletions: Seq<Deletion>) -> bool {
    forall|i: int, j: int|
        0 <= i < j < deletions.len() ==> bytes((#[trigger] deletions[i]).path@) != bytes(
            (#[trigger] deletions[j]).path@,
        )
}

/// The times of the deletions are valid readings.
pub open spec fn valid_deletions(deletions: Seq<Deletion>) -> bool {
    forall|i: int| 0 <= i < deletions.len() ==> (#[trigger] deletions[i]).at.valid()
}

/// What was found behind a name in a folder.
#[derive(Debug, Clone, Copy)]
pub enum EntryKind {
    /// A folder, to be read in turn.
    Directory,
    /// Anything else, with what was read of it.
    File(Metadata),
}

impl EntryKind {
    /// What was read of a file holds valid times.
    pub open spec fn valid(self) -> bool {
        match self {
            EntryKind::Directory => true,
            EntryKind::File(metadata) => metadata.valid(),
        }
    }
}

/// A scan in progress.
pub struct TreeWalk {
    alias: String,
    /// The folders that are still to be read, as paths relative to the root.
    pending: Vec<String>,
    /// The records gathered so far: first those of the deletion log, then
    /// one for each file found.
    files: Vec<FileInfo>,
    /// How many of `files` came from the deletion log.
    seeded: usize,
}

/// A sequence holds no path twice exactly if it holds at most one record at
/// every path.
proof fn lemma_distinct_by_count(s: Seq<FileInfo>)
    ensures
        distinct_paths(s) <==> forall|key: Seq<u8>| #[trigger] at_path(s, key).len() <= 1,
    decreases s.len(),
{
    if s.len() > 0 {
        let front = s.drop_last();
        let last = s.last();
        lemma_distinct_by_count(front);
        if distinct_paths(s) {
            assert(distinct_paths(front)) by {
                assert forall|i: int, j: int| 0 <= i < j < front.len() implies (#[trigger] front[i]).key()
                    != (#[trigger] front[j]).key() by {
                    assert(front[i] == s[i] && front[j] == s[j]);
                }
            }
            assert forall|key: Seq<u8>| #[trigger] at_path(s, key).len() <= 1 by {
                assert(at_path(front, key).len() <= 1);
                if last.key() == key {
                    assert forall|j: int| 0 <= j < front.len() implies (#[trigger] front[j]).key()
                        != key by {
                        assert(front[j] == s[j]);
                        assert(s[s.len() - 1] == last);
                    }
                    lemma_at_path_absent(front, key);
                }
            }
        }
        if forall|key: Seq<u8>| #[trigger] at_path(s, key).len() <= 1 {
            assert forall|key: Seq<u8>| #[trigger] at_path(front, key).len() <= 1 by {
                assert(at_path(s, key).len() <= 1);
            }
            assert forall|i: int, j: int| 0 <= i < j < s.len() implies (#[trigger] s[i]).key() != (
            #[trigger] s[j]).key() by {
                if j < front.len() {
                    assert(front[i] == s[i] && front[j] == s[j]);
                } else if s[i].key() == s[j].key() {
                    assert(front[i] == s[i]);
                    lemma_at_path_holds(front, i);
                    assert(at_path(front, last.key()).len() >= 1);
                    assert(at_path(s, last.key()).len() <= 1);
                }
            }
        }
    } else {
        assert forall|key: Seq<u8>| #[trigger] at_path(s, key).len() <= 1 by {}
    }
}

impl TreeWalk {
    /// What holds of every scan: the records of the deletion log stand
    /// first and describe no file, those behind them describe files whose
    /// paths do not end with the reserved suffix, and all carry the alias.
    pub closed spec fn wf(self) -> bool {
        &&& self.seeded <= self.files@.len()
        &&& forall|i: int|
            0 <= i < self.files@.len() ==> (#[trigger] self.files@[i]).alias@ == self.alias@
        &&& forall|i: int| 0 <= i < self.seeded ==> (#[trigger] self.files@[i]).size is None
        &&& forall|i: int|
            self.seeded <= i < self.files@.len() ==> (#[trigger] self.files@[i]).size is Some
                && !is_special(self.files@[i].key())
    }

    /// The alias of the root folder that is scanned.
    pub closed spec fn alias(self) -> Seq<char> {
        self.alias@
    }

    /// The folders that are still to be read, as paths relative to the
    /// root. The last one is read next.
    pub closed spec fn pending(self) -> Seq<Seq<u8>> {
        Seq::new(self.pending@.len(), |i: int| bytes(self.pending@[i]@))
    }

    /// The records gathered so far: first those of the deletion log, then
    /// one for each file found, in the order in which they were handed in.
    pub closed spec fn files(self) -> Seq<FileInfo> {
        self.files@
    }

    /// How many of the records came from the deletion log.
    pub closed spec fn seeded(self) -> int {
        self.seeded as int
    }

    /// The records that came from the deletion log.
    pub open spec fn tombstones(self) -> Seq<FileInfo> {
        self.files().subrange(0, self.seeded())
    }

    /// The records of the files that were found so far.
    pub open spec fn found(self) -> Seq<FileInfo> {
        self.files().subrange(self.seeded(), self.files().len() as int)
    }

    /// At every moment of a scan the records of the deletion log stand
    /// first and describe no file, the records behind them describe files,
    /// none of which has a path with the reserved suffix, and every record
    /// carries the alias of the scan.
    pub proof fn lemma_scan_holds_no_scratch_file(self)
        requires
            self.wf(),
        ensures
            0 <= self.seeded() <= self.files().len(),
            forall|i: int|
                0 <= i < self.files().len() ==> (#[trigger] self.files()[i]).alias@ == self.alias(),
            forall|i: int|
                0 <= i < self.tombstones().len() ==> (#[trigger] self.tombstones()[i]).size is None,
            forall|i: int|
                0 <= i < self.found().len() ==> (#[trigger] self.found()[i]).size is Some
                    && !is_special(self.found()[i].key()),
    {
    }

    /// Starts a scan of the root folder of `alias`. The deletions of the
    /// deletion log become the first records, and the root folder, whose
    /// relative path is empty, is the folder to read first. Every deletion
    /// is recorded, whatever its path: the reserved suffix keeps files out
    /// of a scan, not what the deletion log remembers.
    pub fn new(alias: &str, deletions: Vec<Deletion>) -> (walk: TreeWalk)
        requires
            valid_deletions(deletions@),
        ensures
            walk.wf(),
            distinct_deletions(deletions@) ==> distinct_paths(walk.tombstones()),
            walk.alias() == alias@,
            walk.pending() == seq![Seq::<u8>::empty()],
            walk.seeded() == deletions@.len(),
            walk.files().len() == deletions@.len(),
            forall|i: int|
                0 <= i < deletions@.len() ==> (#[trigger] walk.files()[i])@ == FileView::tombstone(
                    alias@,
                    bytes(deletions@[i].path@),
                    deletions@[i].at,
                ),
    {
        let mut files: Vec<FileInfo> = Vec::new();
        let mut i: usize = 0;
        while i < deletions.len()
            invariant
                i <= deletions@.len(),
                files@.len() == i,
                valid_deletions(deletions@),
                forall|k: int|
                    0 <= k < i ==> (#[trigger] files@[k])@ == FileView::tombstone(
                        alias@,
                        bytes(deletions@[k].path@),
                        deletions@[k].at,
                    ),
            decreases deletions@.len() - i,
        {
            let deletion = &deletions[i];
            let record = FileInfo::new_deleted(
                alias.to_owned(),
                deletion.path.clone(),
                Some(deletion.at),
            );
            files.push(record);
            i += 1;
        }
        let mut pending: Vec<String> = Vec::new();
        pending.push(String::new());
        let walk = TreeWalk { alias: alias.to_owned(), pending, files, seeded: i };
        proof {
            assert(bytes(Seq::<char>::empty()) =~= Seq::<u8>::empty());
            assert(walk.pending() =~= seq![Seq::<u8>::empty()]);
            assert(walk.tombstones() =~= walk.files());
            if distinct_deletions(deletions@) {
                assert forall|i: int, j: int| 0 <= i < j < walk.files().len() implies (
                #[trigger] walk.files()[i]).key() != (#[trigger] walk.files()[j]).key() by {
                    assert(walk.files()[i]@.path == bytes(deletions@[i].path@));
                    assert(walk.files()[j]@.path == bytes(deletions@[j].path@));
                }
            }
        }
        walk
    }

    /// Gives the folder to read next, as a path relative to the root, and
    /// takes it off the list. The folder that was found last is read first.
    /// `None` says that every folder has been read.
    pub fn next_dir(&mut self) -> (next: Option<String>)
        requires
            old(self).wf(),
        ensures
            final(self).wf(),
            final(self).alias() == old(self).alias(),
            final(self).files() == old(self).files(),
            final(self).seeded() == old(self).seeded(),
            match next {
                Some(folder) => {
                    &&& old(self).pending().len() > 0
                    &&& bytes(folder@) == old(self).pending().last()
                    &&& final(self).pending() == old(self).pending().drop_last()
                },
                None => {
                    &&& old(self).pending().len() == 0
                    &&& final(self).pending() == old(self).pending()
                },
            },
    {
        let next = self.pending.pop();
        proof {
            if old(self).pending().len() > 0 {
                assert(self.pending() =~= old(self).pending().drop_last());
            }
        }
        next
    }

    /// Takes the entry `name` that was found in `folder`, a folder that
    /// `next_dir` gave, and decides what becomes of it.
    ///
    /// An entry whose path ends with the reserved suffix is passed over,
    /// whatever it is. A folder is put on the list of folders to read. For
    /// anything else a record is made from what was read of it.
    pub fn visit(&mut self, folder: &str, name: &str, kind: EntryKind)
        requires
            old(self).wf(),
            kind.valid(),
        ensures
            final(self).wf(),
            final(self).alias() == old(self).alias(),
            final(self).seeded() == old(self).seeded(),
            final(self).tombstones() == old(self).tombstones(),
            ({
                let path = join(bytes(folder@), bytes(name@));
                if is_special(path) {
                    &&& final(self).pending() == old(self).pending()
                    &&& final(self).files() == old(self).files()
                } else {
                    match kind {
                        EntryKind::Directory => {
                            &&& final(self).pending() == old(self).pending().push(path)
                            &&& final(self).files() == old(self).files()
                        },
                        EntryKind::File(metadata) => {
                            &&& final(self).pending() == old(self).pending()
                            &&& final(self).files().len() == old(self).files().len() + 1
                            &&& final(self).files().drop_last() == old(self).files()
                            &&& final(self).files().last()@ == FileView::live(
                                old(self).alias(),
                                path,
                                metadata,
                            )
                        },
                    }
                }
            }),
    {
        let path = join_path(folder, name);
        if is_special_file(path.as_str()) {
            return ;
        }
        match kind {
            EntryKind::Directory => {
                self.pending.push(path);
                proof {
                    assert(self.pending() =~= old(self).pending().push(
                        join(bytes(folder@), bytes(name@)),
                    ));
                }
            },
            EntryKind::File(metadata) => {
                let record = FileInfo::new(self.alias.clone(), path, metadata);
                self.files.push(record);
                proof {
                    assert(self.files().drop_last() =~= old(self).files());
                    assert(self.tombstones() =~= old(self).tombstones());
                }
            },
        }
    }

    /// Ends the scan and gives the snapshot: the records gathered, sorted in
    /// ascending order of their paths.
    ///
    /// The snapshot holds every record that was gathered, each once; records
    /// with the same path stay in the order in which they were gathered, so a
    /// tombstone stands in front of the file that has come back under its
    /// path. The snapshot is strictly ascending exactly if no path was
    /// gathered twice. No file in it has a path with the reserved suffix. A
    /// deletion whose path was gathered only once, so that the deletion log
    /// holds it once and the tree does not hold it, has exactly one record
    /// in the snapshot: its tombstone.
    pub fn finish(self) -> (snapshot: Vec<FileInfo>)
        requires
            self.wf(),
        ensures
            snapshot@ == snapshot_of(self.files()),
            is_snapshot_of(snapshot@, self.files()),
            strictly_sorted_by_path(snapshot@) <==> distinct_paths(self.files()),
            forall|i: int|
                0 <= i < snapshot@.len() && (#[trigger] snapshot@[i]).size is Some ==> !is_special(
                    snapshot@[i].key(),
                ),
            forall|i: int|
                0 <= i < snapshot@.len() ==> (#[trigger] snapshot@[i]).alias@ == self.alias(),
            forall|i: int|
                0 <= i < self.seeded() && #[trigger] stands_alone(self.files(), i) ==> at_path(
                    snapshot@,
                    self.files()[i].key(),
                ) == seq![self.files()[i]],
    {
        let ghost gathered = self.files@;
        let snapshot = sort_by_path(self.files);
        proof {
            lemma_strictly_sorted(snapshot@);
            lemma_distinct_by_count(snapshot@);
            lemma_distinct_by_count(gathered);
            assert(distinct_paths(snapshot@) <==> distinct_paths(gathered)) by {
                if distinct_paths(gathered) {
                    assert forall|key: Seq<u8>| #[trigger] at_path(snapshot@, key).len() <= 1 by {
                        assert(at_path(gathered, key).len() <= 1);
                    }
                }
                if distinct_paths(snapshot@) {
                    assert forall|key: Seq<u8>| #[trigger] at_path(gathered, key).len() <= 1 by {
                        assert(at_path(snapshot@, key).len() <= 1);
                    }
                }
            }
            assert forall|i: int| 0 <= i < snapshot@.len() implies ((#[trigger] snapshot@[i]).size is Some
                ==> !is_special(snapshot@[i].key())) && snapshot@[i].alias@ == self.alias() by {
                let record = snapshot@[i];
                lemma_at_path_holds(snapshot@, i);
                assert(at_path(snapshot@, record.key()) == at_path(gathered, record.key()));
                lemma_at_path_members(gathered, record.key());
                let found = at_path(gathered, record.key());
                let k = choose|k: int| 0 <= k < found.len() && found[k] == record;
                assert(gathered.contains(found[k]));
                let at = choose|at: int| 0 <= at < gathered.len() && gathered[at] == record;
                assert(gathered[at] == record);
            }
            assert forall|i: int|
                0 <= i < self.seeded() && #[trigger] stands_alone(gathered, i) implies at_path(
                snapshot@,
                gathered[i].key(),
            ) == seq![gathered[i]] by {
                lemma_at_path_single(gathered, i);
            }
        }
        snapshot
    }
}

/// Ends a scan and gives the snapshot together with its fingerprint.
pub fn get_files_with_hash(walk: TreeWalk) -> (result: (u64, Vec<FileInfo>))
    requires
        walk.wf(),
    ensures
        is_snapshot_of(result.1@, walk.files()),
        result.1@ == snapshot_of(walk.files()),
        result.0 == fingerprint(result.1@),
{
    let files = walk.finish();
    let hash = calculate_hash(&files);
    (hash, files)
}

/// The fingerprint of one alias.
#[derive(Debug)]
pub struct AliasHash {
    pub alias: String,
    pub hash: u64,
}

/// No alias stands twice among the scans.
pub open spec fn distinct_scans(walks: Seq<TreeWalk>) -> bool {
    forall|i: int, j: int|
        0 <= i < j < walks.len() ==> (#[trigger] walks[i]).alias() != (#[trigger] walks[j]).alias()
}

/// No alias stands twice among the fingerprints: they are the map from
/// alias to fingerprint that they are meant to be.
pub open spec fn distinct_hashes(hashes: Seq<AliasHash>) -> bool {
    forall|i: int, j: int|
        0 <= i < j < hashes.len() ==> (#[trigger] hashes[i]).alias@ != (#[trigger] hashes[j]).alias@
}

/// Ends a scan for each alias and gives the fingerprint of each snapshot
/// under its alias, in the order of the scans. The snapshots themselves are
/// dropped: the fingerprints are all that a comparison with a peer needs.
pub fn get_hash_for_alias(walks: Vec<TreeWalk>) -> (hashes: Vec<AliasHash>)
    requires
        forall|i: int| 0 <= i < walks@.len() ==> (#[trigger] walks@[i]).wf(),
    ensures
        hashes@.len() == walks@.len(),
        forall|i: int|
            0 <= i < walks@.len() ==> (#[trigger] hashes@[i]).alias@ == walks@[i].alias()
                && hashes@[i].hash == fingerprint(snapshot_of(walks@[i].files())),
        distinct_scans(walks@) ==> distinct_hashes(hashes@),
{
    let mut hashes: Vec<AliasHash> = Vec::new();
    for walk in scans: walks
        invariant
            hashes@.len() == scans.index(),
            forall|i: int| 0 <= i < walks@.len() ==> (#[trigger] walks@[i]).wf(),
            forall|i: int|
                0 <= i < hashes@.len() ==> (#[trigger] hashes@[i]).alias@ == walks@[i].alias()
                    && hashes@[i].hash == fingerprint(snapshot_of(walks@[i].files())),
    {
        let alias = walk.alias.clone();
        let (hash, _) = get_files_with_hash(walk);
        hashes.push(AliasHash { alias, hash });
    }
    proof {
        if distinct_scans(walks@) {
            assert forall|i: int, j: int| 0 <= i < j < hashes@.len() implies (#[trigger] hashes@[i]).alias@
                != (#[trigger] hashes@[j]).alias@ by {
                assert(walks@[i].alias() != walks@[j].alias());
            }
        }
    }
    hashes
}

} // verus!
