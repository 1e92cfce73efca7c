//! The sync index: the last-known state of every tracked file, and a record
//! with a reference count for every chunk those files are made of.

use crate::assoc::{
    as_map, count_of, lemma_as_map_at, lemma_as_map_push, lemma_as_map_remove,
    lemma_as_map_update, lemma_count_contains, lemma_count_push,
};
use crate::chunk::{same_address, MAX_CHUNK_SIZE};
use vstd::prelude::*;
use vstd::slice::slice_to_vec;

verus! {

broadcast use vstd::array::group_array_axioms;

/// What identifies one state of a file's content: its hash, its length and
/// when it was last modified.
#[derive(Clone, Copy, Debug, PartialEq, Eq)]
pub struct FileVersion {
    pub content_hash: [u8; 32],
    pub size: u64,
    pub modified_time: i64,
}

/// Whether two versions agree in hash, size and modification time.
pub fn same_version(a: &FileVersion, b: &FileVersion) -> (same: bool)
    ensures
        same == (*a == *b),
{
    same_address(&a.content_hash, &b.content_hash) && a.size == b.size && a.modified_time
        == b.modified_time
}

/// The last-known state of one tracked file.
#[derive(Debug)]
pub struct FileRecord {
    pub path: String,
    pub size: u64,
    pub modified_time: i64,
    pub content_hash: [u8; 32],
    pub chunk_manifest: Vec<[u8; 32]>,
}

/// Mathematical model of a [`FileRecord`].
pub struct FileRecordModel {
    pub path: Seq<char>,
    pub size: u64,
    pub modified_time: i64,
    pub content_hash: [u8; 32],
    pub chunk_manifest: Seq<[u8; 32]>,
}

impl FileRecordModel {
    /// The version this record describes.
    pub open spec fn version(self) -> FileVersion {
        FileVersion {
            content_hash: self.content_hash,
            size: self.size,
            modified_time: self.modified_time,
        }
    }
}

impl View for FileRecord {
    type V = FileRecordModel;

    open spec fn view(&self) -> FileRecordModel {
        FileRecordModel {
            path: self.path@,
            size: self.size,
            modified_time: self.modified_time,
            content_hash: self.content_hash,
            chunk_manifest: self.chunk_manifest@,
        }
    }
}

impl Clone for FileRecord {
    fn clone(&self) -> (copy: Self)
        ensures
            copy@ == self@,
    {
        FileRecord {
            path: self.path.clone(),
            size: self.size,
            modified_time: self.modified_time,
            content_hash: self.content_hash,
            chunk_manifest: slice_to_vec(self.chunk_manifest.as_slice()),
        }
    }
}

impl FileRecord {
    /// The version this record describes.
    pub fn version(&self) -> (v: FileVersion)
        ensures
            v == self@.version(),
    {
        FileVersion {
            content_hash: self.content_hash,
            size: self.size,
            modified_time: self.modified_time,
        }
    }
}

/// What the index knows of one chunk: its address, its length in bytes and
/// how many manifest entries of tracked files name it.
#[derive(Clone, Copy, Debug, PartialEq, Eq)]
pub struct ChunkRecord {
    pub address: [u8; 32],
    pub size: u64,
    pub reference_count: u64,
}

/// A file as found on one side (on disk, or in the remote store) during a scan.
#[derive(Debug)]
pub struct ObservedFile {
    pub path: String,
    pub version: FileVersion,
}

/// Mathematical model of an [`ObservedFile`].
pub struct ObservedFileModel {
    pub path: Seq<char>,
    pub version: FileVersion,
}

impl View for ObservedFile {
    type V = ObservedFileModel;

    open spec fn view(&self) -> ObservedFileModel {
        ObservedFileModel { path: self.path@, version: self.version }
    }
}

/// The models of a list of observations, in order.
pub open spec fn observed_models(files: Seq<ObservedFile>) -> Seq<ObservedFileModel> {
    Seq::new(files.len(), |i: int| files[i]@)
}

/// Whether `path` is one of `paths`.
pub open spec fn lists(paths: Seq<String>, path: Seq<char>) -> bool {
    exists|k: int| 0 <= k < paths.len() && (#[trigger] paths[k])@ == path
}

/// The paths as character sequences, in order.
pub open spec fn path_models(paths: Seq<String>) -> Seq<Seq<char>> {
    Seq::new(paths.len(), |k: int| paths[k]@)
}

/// Why the index refused a change. A refused change leaves the index as it was.
#[derive(Clone, Copy, Debug, PartialEq, Eq)]
pub enum IndexError {
    /// A chunk longer than [`MAX_CHUNK_SIZE`] was registered.
    ChunkTooLarge,
    /// The chunk is already registered with another length.
    ChunkSizeConflict,
    /// The manifest names, at `position`, a chunk that was never registered.
    UnknownChunk { position: usize },
    /// The lengths of the manifest's chunks do not add up to the file's size.
    SizeMismatch,
    /// The reference counts would no longer fit.
    Full,
}

/// A tracked file is identified by its folder and its path inside the folder.
pub type PathKey = ([u8; 16], Seq<char>);

/// Mathematical model of a [`SyncIndex`].
pub struct IndexModel {
    /// The record of each tracked file.
    pub files: Map<PathKey, FileRecordModel>,
    /// The record of each registered chunk.
    pub chunks: Map<[u8; 32], ChunkRecord>,
    /// The number of manifest entries over all tracked files.
    pub entries: nat,
}

impl IndexModel {
    /// How many manifest entries of tracked files name the chunk at `address`.
    pub open spec fn references(self, address: [u8; 32]) -> nat {
        if self.chunks.contains_key(address) {
            self.chunks[address].reference_count as nat
        } else {
            0
        }
    }

    /// The manifest stored for `key`, empty if the file is not tracked.
    pub open spec fn manifest_at(self, key: PathKey) -> Seq<[u8; 32]> {
        if self.files.contains_key(key) {
            self.files[key].chunk_manifest
        } else {
            Seq::empty()
        }
    }

    /// Whether every address of `manifest` is registered.
    pub open spec fn knows_all(self, manifest: Seq<[u8; 32]>) -> bool {
        forall|i: int| 0 <= i < manifest.len() ==> self.chunks.contains_key(#[trigger] manifest[i])
    }

    /// The registered lengths of the chunks of `manifest`, added up.
    pub open spec fn manifest_bytes(self, manifest: Seq<[u8; 32]>) -> nat
        decreases manifest.len(),
    {
        if manifest.len() == 0 {
            0
        } else {
            self.manifest_bytes(manifest.drop_last()) + if self.chunks.contains_key(
                manifest.last(),
            ) {
                self.chunks[manifest.last()].size as nat
            } else {
                0nat
            }
        }
    }

    /// The number of manifest entries once `record` has taken the place of
    /// what is stored under `key`.
    pub open spec fn entries_after(self, key: PathKey, record: FileRecordModel) -> int {
        self.entries - self.manifest_at(key).len() + record.chunk_manifest.len()
    }

    /// The chunk records once the references of `gone` are given up and those
    /// of `come` are taken.
    pub open spec fn rebalanced(self, gone: Seq<[u8; 32]>, come: Seq<[u8; 32]>) -> Map<
        [u8; 32],
        ChunkRecord,
    > {
        Map::new(
            |a: [u8; 32]| self.chunks.contains_key(a),
            |a: [u8; 32]|
                ChunkRecord {
                    address: self.chunks[a].address,
                    size: self.chunks[a].size,
                    reference_count: (self.chunks[a].reference_count - count_of(gone, a)
                        + count_of(come, a)) as u64,
                },
        )
    }

    /// Whether `record` can be committed for `folder`: its chunks are all
    /// registered, their lengths add up to its size, and the manifest entries
    /// of the index stay countable.
    pub open spec fn accepts(self, folder: [u8; 16], record: FileRecordModel) -> bool {
        &&& self.knows_all(record.chunk_manifest)
        &&& self.manifest_bytes(record.chunk_manifest) == record.size
        &&& self.entries_after((folder, record.path), record) <= u64::MAX
    }

    /// Whether committing `record` for `folder` is refused with `error`: for
    /// the first unregistered chunk of the manifest if there is one, else for
    /// a size that is not the sum of the chunk lengths, else for want of room.
    pub open spec fn refuses(
        self,
        folder: [u8; 16],
        record: FileRecordModel,
        error: IndexError,
    ) -> bool {
        match error {
            IndexError::UnknownChunk { position } => {
                &&& position < record.chunk_manifest.len()
                &&& !self.chunks.contains_key(record.chunk_manifest[position as int])
                &&& self.knows_all(record.chunk_manifest.subrange(0, position as int))
            },
            IndexError::SizeMismatch => {
                &&& self.knows_all(record.chunk_manifest)
                &&& self.manifest_bytes(record.chunk_manifest) != record.size
            },
            IndexError::Full => {
                &&& self.knows_all(record.chunk_manifest)
                &&& self.manifest_bytes(record.chunk_manifest) == record.size
                &&& self.entries_after((folder, record.path), record) > u64::MAX
            },
            _ => false,
        }
    }

    /// The index after `record` was committed for `folder`.
    pub open spec fn committed(self, folder: [u8; 16], record: FileRecordModel) -> IndexModel {
        let key = (folder, record.path);
        IndexModel {
            files: self.files.insert(key, record),
            chunks: self.rebalanced(self.manifest_at(key), record.chunk_manifest),
            entries: self.entries_after(key, record) as nat,
        }
    }

    /// The index after the file under `key` was dropped.
    pub open spec fn dropped(self, key: PathKey) -> IndexModel {
        IndexModel {
            files: self.files.remove(key),
            chunks: self.rebalanced(self.manifest_at(key), Seq::empty()),
            entries: (self.entries - self.manifest_at(key).len()) as nat,
        }
    }

    /// The index after the files at `paths` in `folder` were dropped, one
    /// after the other.
    pub open spec fn dropped_all(self, folder: [u8; 16], paths: Seq<Seq<char>>) -> IndexModel
        decreases paths.len(),
    {
        if paths.len() == 0 {
            self
        } else {
            self.dropped_all(folder, paths.drop_last()).dropped((folder, paths.last()))
        }
    }

    /// Whether a tracked file of the index lists the chunk at `address`.
    pub open spec fn is_live(self, address: [u8; 32]) -> bool {
        exists|key: PathKey| #[trigger]
            self.files.contains_key(key) && self.files[key].chunk_manifest.contains(address)
    }

    /// Whether one of the first `upto` observations is of `path` in a version
    /// other than the stored one (or of a path that is not tracked at all).
    pub open spec fn seen_changed(
        self,
        folder: [u8; 16],
        observed: Seq<ObservedFileModel>,
        path: Seq<char>,
        upto: int,
    ) -> bool {
        exists|i: int|
            0 <= i < upto && (#[trigger] observed[i]).path == path && !(self.files.contains_key(
                (folder, path),
            ) && self.files[(folder, path)].version() == observed[i].version)
    }

    /// Whether the state seen for `path` differs from what the index holds for
    /// it: a path seen in a version other than the stored one, or seen but not
    /// tracked, or tracked in `folder` but not seen.
    pub open spec fn differs(
        self,
        folder: [u8; 16],
        observed: Seq<ObservedFileModel>,
        path: Seq<char>,
    ) -> bool {
        ||| self.seen_changed(folder, observed, path, observed.len() as int)
        ||| self.files.contains_key((folder, path)) && !observed_at(observed, path)
    }
}

/// Whether one of the observations is of `path`.
pub open spec fn observed_at(observed: Seq<ObservedFileModel>, path: Seq<char>) -> bool {
    exists|i: int| 0 <= i < observed.len() && (#[trigger] observed[i]).path == path
}

spec fn tracked_upto(keys: Seq<PathKey>, key: PathKey, upto: int) -> bool {
    exists|j: int| 0 <= j < upto && #[trigger] keys[j] == key
}

struct IndexedFile {
    folder: [u8; 16],
    record: FileRecord,
}

spec fn file_keys(files: Seq<IndexedFile>) -> Seq<PathKey> {
    Seq::new(files.len(), |i: int| (files[i].folder, files[i].record.path@))
}

spec fn file_values(files: Seq<IndexedFile>) -> Seq<FileRecordModel> {
    Seq::new(files.len(), |i: int| files[i].record@)
}

spec fn chunk_keys(chunks: Seq<ChunkRecord>) -> Seq<[u8; 32]> {
    Seq::new(chunks.len(), |i: int| chunks[i].address)
}

spec fn occurrences(files: Seq<IndexedFile>, a: [u8; 32]) -> nat
    decreases files.len(),
{
    if files.len() == 0 {
        0
    } else {
        occurrences(files.drop_last(), a) + count_of(files.last().record.chunk_manifest@, a)
    }
}

spec fn total_entries(files: Seq<IndexedFile>) -> nat
    decreases files.len(),
{
    if files.len() == 0 {
        0
    } else {
        total_entries(files.drop_last()) + files.last().record.chunk_manifest@.len()
    }
}

proof fn lemma_occurrences_remove(files: Seq<IndexedFile>, i: int, a: [u8; 32])
    requires
        0 <= i < files.len(),
    ensures
        occurrences(files.remove(i), a) + count_of(files[i].record.chunk_manifest@, a)
            == occurrences(files, a),
        total_entries(files.remove(i)) + files[i].record.chunk_manifest@.len() == total_entries(
            files,
        ),
    decreases files.len(),
{
    if i == files.len() - 1 {
        assert(files.remove(i) =~= files.drop_last());
    } else {
        lemma_occurrences_remove(files.drop_last(), i, a);
        assert(files.remove(i).drop_last() =~= files.drop_last().remove(i));
        assert(files.remove(i).last() == files.last());
    }
}

proof fn lemma_occurrences_push(files: Seq<IndexedFile>, file: IndexedFile, a: [u8; 32])
    ensures
        occurrences(files.push(file), a) == occurrences(files, a) + count_of(
            file.record.chunk_manifest@,
            a,
        ),
        total_entries(files.push(file)) == total_entries(files) + file.record.chunk_manifest@.len(),
{
    assert(files.push(file).drop_last() =~= files);
}

proof fn lemma_occurrences_bounded(files: Seq<IndexedFile>, a: [u8; 32])
    ensures
        occurrences(files, a) <= total_entries(files),
    decreases files.len(),
{
    if files.len() > 0 {
        lemma_occurrences_bounded(files.drop_last(), a);
        lemma_count_contains(files.last().record.chunk_manifest@, a);
    }
}

proof fn lemma_occurrences_live(files: Seq<IndexedFile>, a: [u8; 32])
    ensures
        occurrences(files, a) > 0 <==> exists|i: int|
            0 <= i < files.len() && (#[trigger] files[i]).record.chunk_manifest@.contains(a),
    decreases files.len(),
{
    if files.len() > 0 {
        let rest = files.drop_last();
        lemma_occurrences_live(rest, a);
        lemma_count_contains(files.last().record.chunk_manifest@, a);
        if occurrences(files, a) > 0 {
            if occurrences(rest, a) > 0 {
                let i = choose|i: int|
                    0 <= i < rest.len() && (#[trigger] rest[i]).record.chunk_manifest@.contains(a);
                assert(files[i].record.chunk_manifest@.contains(a));
            } else {
                assert(files[files.len() - 1].record.chunk_manifest@.contains(a));
            }
        }
        if exists|i: int|
            0 <= i < files.len() && (#[trigger] files[i]).record.chunk_manifest@.contains(a) {
            let i = choose|i: int|
                0 <= i < files.len() && (#[trigger] files[i]).record.chunk_manifest@.contains(a);
            if i < rest.len() {
                assert(rest[i].record.chunk_manifest@.contains(a));
            }
        }
    }
}

/// The metadata store of the engine: one record per tracked file, keyed by
/// folder and path, and one record per registered chunk, keyed by address.
pub struct SyncIndex {
    files: Vec<IndexedFile>,
    chunks: Vec<ChunkRecord>,
    entries: u64,
}

impl View for SyncIndex {
    type V = IndexModel;

    closed spec fn view(&self) -> IndexModel {
        IndexModel {
            files: as_map(file_keys(self.files@), file_values(self.files@)),
            chunks: as_map(chunk_keys(self.chunks@), self.chunks@),
            entries: self.entries as nat,
        }
    }
}

impl SyncIndex {
    /// Like `wf`, but with the chunk records holding, beyond the references of
    /// the tracked files, one reference for each entry of `surplus`.
    spec fn balanced(&self, surplus: Seq<[u8; 32]>) -> bool {
        &&& file_keys(self.files@).no_duplicates()
        &&& chunk_keys(self.chunks@).no_duplicates()
        &&& forall|i: int|
            0 <= i < self.chunks@.len() ==> (#[trigger] self.chunks@[i]).size <= MAX_CHUNK_SIZE
        &&& forall|a: [u8; 32]|
            #![trigger self@.references(a)]
            self@.references(a) == occurrences(self.files@, a) + count_of(surplus, a)
    }

    /// The invariant of the index: no file and no chunk is recorded twice, no
    /// chunk is longer than [`MAX_CHUNK_SIZE`], and each reference count is the
    /// number of manifest entries that name the chunk.
    pub closed spec fn wf(&self) -> bool {
        &&& self.balanced(Seq::empty())
        &&& self.entries == total_entries(self.files@)
    }

    /// An index that tracks nothing.
    pub fn new() -> (index: Self)
        ensures
            index.wf(),
            index@.files == Map::<PathKey, FileRecordModel>::empty(),
            index@.chunks == Map::<[u8; 32], ChunkRecord>::empty(),
            index@.entries == 0,
    {
        let index = SyncIndex { files: Vec::new(), chunks: Vec::new(), entries: 0 };
        proof {
            assert(index@.files =~= Map::<PathKey, FileRecordModel>::empty());
            assert(index@.chunks =~= Map::<[u8; 32], ChunkRecord>::empty());
        }
        index
    }

    fn find_chunk(&self, address: &[u8; 32]) -> (found: Option<usize>)
        requires
            chunk_keys(self.chunks@).no_duplicates(),
        ensures
            found matches Some(i) ==> i < self.chunks@.len() && self.chunks@[i as int].address
                == *address && self@.chunks.contains_key(*address) && self@.chunks[*address]
                == self.chunks@[i as int],
            found is None ==> !self@.chunks.contains_key(*address),
    {
        let mut i: usize = 0;
        while i < self.chunks.len()
            invariant
                i <= self.chunks@.len(),
                chunk_keys(self.chunks@).no_duplicates(),
                forall|j: int| 0 <= j < i ==> self.chunks@[j].address != *address,
            decreases self.chunks@.len() - i,
        {
            if same_address(&self.chunks[i].address, address) {
                proof {
                    assert(chunk_keys(self.chunks@)[i as int] == *address);
                    lemma_as_map_at(chunk_keys(self.chunks@), self.chunks@, i as int);
                }
                return Some(i);
            }
            i = i + 1;
        }
        proof {
            if chunk_keys(self.chunks@).contains(*address) {
                let j = chunk_keys(self.chunks@).index_of(*address);
                assert(self.chunks@[j].address == *address);
            }
        }
        None
    }

    fn find_file(&self, folder: &[u8; 16], path: &String) -> (found: Option<usize>)
        requires
            file_keys(self.files@).no_duplicates(),
        ensures
            found matches Some(i) ==> i < self.files@.len() && self.files@[i as int].folder
                == *folder && self.files@[i as int].record.path@ == path@
                && self@.files.contains_key((*folder, path@)) && self@.files[(*folder, path@)]
                == self.files@[i as int].record@,
            found is None ==> !self@.files.contains_key((*folder, path@)),
    {
        let mut i: usize = 0;
        while i < self.files.len()
            invariant
                i <= self.files@.len(),
                file_keys(self.files@).no_duplicates(),
                forall|j: int|
                    0 <= j < i ==> !(self.files@[j].folder == *folder && self.files@[j].record.path@
                        == path@),
            decreases self.files@.len() - i,
        {
            if same_folder(&self.files[i].folder, folder) && self.files[i].record.path == *path {
                proof {
                    assert(file_keys(self.files@)[i as int] == (*folder, path@));
                    lemma_as_map_at(file_keys(self.files@), file_values(self.files@), i as int);
                }
                return Some(i);
            }
            i = i + 1;
        }
        proof {
            if file_keys(self.files@).contains((*folder, path@)) {
                let j = file_keys(self.files@).index_of((*folder, path@));
                assert(file_keys(self.files@)[j] == (*folder, path@));
            }
        }
        None
    }

    /// The record of the file at `path` in `folder`, if it is tracked.
    pub fn get(&self, folder: &[u8; 16], path: &String) -> (found: Option<&FileRecord>)
        requires
            self.wf(),
        ensures
            found matches Some(record) ==> self@.files.contains_key((*folder, path@))
                && record@ == self@.files[(*folder, path@)],
            found is None ==> !self@.files.contains_key((*folder, path@)),
    {
        match self.find_file(folder, path) {
            Some(i) => Some(&self.files[i].record),
            None => None,
        }
    }

    /// The record of the chunk at `address`, if it is registered.
    pub fn chunk(&self, address: &[u8; 32]) -> (found: Option<ChunkRecord>)
        requires
            self.wf(),
        ensures
            found matches Some(record) ==> self@.chunks.contains_key(*address) && record
                == self@.chunks[*address],
            found is None ==> !self@.chunks.contains_key(*address),
    {
        match self.find_chunk(address) {
            Some(i) => Some(self.chunks[i]),
            None => None,
        }
    }

    /// How many manifest entries of tracked files name the chunk at `address`.
    pub fn reference_count(&self, address: &[u8; 32]) -> (count: u64)
        requires
            self.wf(),
        ensures
            count == self@.references(*address),
    {
        match self.find_chunk(address) {
            Some(i) => self.chunks[i].reference_count,
            None => 0,
        }
    }

    /// Number of tracked files.
    pub fn len(&self) -> (n: usize)
        requires
            self.wf(),
        ensures
            n == self@.files.dom().len(),
            self@.files.dom().finite(),
    {
        proof {
            crate::assoc::lemma_dom_len(file_keys(self.files@), file_values(self.files@));
        }
        self.files.len()
    }
}

impl SyncIndex {
    /// Registers the chunk at `address` with its length, with no reference yet.
    /// Registering a chunk again with the same length changes nothing.
    pub fn register_chunk(&mut self, address: [u8; 32], size: u64) -> (r: Result<(), IndexError>)
        requires
            old(self).wf(),
        ensures
            final(self).wf(),
            r == (if size > MAX_CHUNK_SIZE {
                Err::<(), IndexError>(IndexError::ChunkTooLarge)
            } else if old(self)@.chunks.contains_key(address) && old(self)@.chunks[address].size
                != size {
                Err(IndexError::ChunkSizeConflict)
            } else {
                Ok(())
            }),
            final(self)@.files == old(self)@.files,
            final(self)@.entries == old(self)@.entries,
            final(self)@.chunks == (if r is Ok && !old(self)@.chunks.contains_key(address) {
                old(self)@.chunks.insert(
                    address,
                    ChunkRecord { address, size, reference_count: 0 },
                )
            } else {
                old(self)@.chunks
            }),
    {
        if size > MAX_CHUNK_SIZE as u64 {
            return Err(IndexError::ChunkTooLarge);
        }
        match self.find_chunk(&address) {
            Some(i) => {
                if self.chunks[i].size != size {
                    Err(IndexError::ChunkSizeConflict)
                } else {
                    Ok(())
                }
            },
            None => {
                let record = ChunkRecord { address, size, reference_count: 0 };
                let ghost before = *self;
                self.chunks.push(record);
                proof {
                    lemma_as_map_push(chunk_keys(before.chunks@), before.chunks@, address, record);
                    assert(chunk_keys(self.chunks@) =~= chunk_keys(before.chunks@).push(address));
                    assert forall|a: [u8; 32]|
                        #![trigger self@.references(a)]
                        self@.references(a) == occurrences(self.files@, a) + count_of(
                            Seq::<[u8; 32]>::empty(),
                            a,
                        ) by {
                        assert(before@.references(a) == occurrences(before.files@, a) + count_of(
                            Seq::<[u8; 32]>::empty(),
                            a,
                        ));
                    }
                }
                Ok(())
            },
        }
    }

    /// Gives up one reference for each entry of `manifest`.
    fn release(&mut self, manifest: &Vec<[u8; 32]>)
        requires
            old(self).balanced(manifest@),
        ensures
            final(self).balanced(Seq::empty()),
            final(self).files == old(self).files,
            final(self).entries == old(self).entries,
            final(self)@.chunks == old(self)@.rebalanced(manifest@, Seq::empty()),
            final(self)@.chunks.dom() == old(self)@.chunks.dom(),
    {
        let mut k: usize = manifest.len();
        proof {
            assert(manifest@.subrange(0, k as int) =~= manifest@);
        }
        while k > 0
            invariant
                k <= manifest@.len(),
                self.balanced(manifest@.subrange(0, k as int)),
                self.files == old(self).files,
                self.entries == old(self).entries,
                self@.chunks.dom() == old(self)@.chunks.dom(),
                forall|a: [u8; 32]|
                    #![trigger self@.chunks[a]]
                    self@.chunks.contains_key(a) ==> self@.chunks[a].address == old(
                        self,
                    )@.chunks[a].address && self@.chunks[a].size == old(self)@.chunks[a].size
                        && self@.chunks[a].reference_count == old(self)@.chunks[a].reference_count
                        - (count_of(manifest@, a) - count_of(manifest@.subrange(0, k as int), a)),
            decreases k,
        {
            let ghost before = *self;
            let ghost head = manifest@.subrange(0, k as int);
            k = k - 1;
            let address = manifest[k];
            proof {
                assert(head.drop_last() =~= manifest@.subrange(0, k as int));
                assert(head.last() == address);
                assert(count_of(head, address) > 0);
                assert(before@.references(address) > 0);
            }
            let found = self.find_chunk(&address);
            let i = found.unwrap();
            let record = self.chunks[i];
            let lowered = ChunkRecord {
                address: record.address,
                size: record.size,
                reference_count: record.reference_count - 1,
            };
            proof {
                lemma_as_map_update(chunk_keys(self.chunks@), self.chunks@, i as int, lowered);
                assert(chunk_keys(self.chunks@.update(i as int, lowered)) =~= chunk_keys(
                    self.chunks@,
                ));
            }
            self.chunks[i] = lowered;
            proof {
                assert(self@.chunks == before@.chunks.insert(address, lowered));
                assert(self@.chunks.dom() =~= before@.chunks.dom());
                assert forall|a: [u8; 32]|
                    #![trigger self@.references(a)]
                    self@.references(a) == occurrences(self.files@, a) + count_of(
                        manifest@.subrange(0, k as int),
                        a,
                    ) by {
                    assert(before@.references(a) == occurrences(before.files@, a) + count_of(
                        head,
                        a,
                    ));
                }
            }
        }
        proof {
            assert(manifest@.subrange(0, 0) =~= Seq::<[u8; 32]>::empty());
            assert(self@.chunks =~= old(self)@.rebalanced(manifest@, Seq::empty()));
        }
    }

    /// Takes one reference for each entry of `manifest`.
    fn acquire(&mut self, manifest: &Vec<[u8; 32]>)
        requires
            old(self).balanced(Seq::empty()),
            old(self)@.knows_all(manifest@),
            total_entries(old(self).files@) + manifest@.len() <= u64::MAX,
        ensures
            final(self).balanced(manifest@),
            final(self).files == old(self).files,
            final(self).entries == old(self).entries,
            final(self)@.chunks == old(self)@.rebalanced(Seq::empty(), manifest@),
            final(self)@.chunks.dom() == old(self)@.chunks.dom(),
    {
        let mut k: usize = 0;
        proof {
            assert(manifest@.subrange(0, 0) =~= Seq::<[u8; 32]>::empty());
        }
        while k < manifest.len()
            invariant
                k <= manifest@.len(),
                self.balanced(manifest@.subrange(0, k as int)),
                old(self)@.knows_all(manifest@),
                total_entries(self.files@) + manifest@.len() <= u64::MAX,
                self.files == old(self).files,
                self.entries == old(self).entries,
                self@.chunks.dom() == old(self)@.chunks.dom(),
                forall|a: [u8; 32]|
                    #![trigger self@.chunks[a]]
                    self@.chunks.contains_key(a) ==> self@.chunks[a].address == old(
                        self,
                    )@.chunks[a].address && self@.chunks[a].size == old(self)@.chunks[a].size
                        && self@.chunks[a].reference_count == old(self)@.chunks[a].reference_count
                        + count_of(manifest@.subrange(0, k as int), a),
            decreases manifest@.len() - k,
        {
            let ghost before = *self;
            let ghost head = manifest@.subrange(0, k as int);
            let address = manifest[k];
            proof {
                assert(old(self)@.chunks.contains_key(manifest@[k as int]));
                assert(before@.references(address) == occurrences(before.files@, address)
                    + count_of(head, address));
                lemma_occurrences_bounded(before.files@, address);
                lemma_count_contains(head, address);
            }
            let found = self.find_chunk(&address);
            let i = found.unwrap();
            let record = self.chunks[i];
            let raised = ChunkRecord {
                address: record.address,
                size: record.size,
                reference_count: record.reference_count + 1,
            };
            proof {
                lemma_as_map_update(chunk_keys(self.chunks@), self.chunks@, i as int, raised);
                assert(chunk_keys(self.chunks@.update(i as int, raised)) =~= chunk_keys(
                    self.chunks@,
                ));
            }
            self.chunks[i] = raised;
            k = k + 1;
            proof {
                let next = manifest@.subrange(0, k as int);
                assert(next =~= head.push(address));
                assert(self@.chunks == before@.chunks.insert(address, raised));
                assert(self@.chunks.dom() =~= before@.chunks.dom());
                assert forall|a: [u8; 32]|
                    #![trigger self@.references(a)]
                    self@.references(a) == occurrences(self.files@, a) + count_of(next, a) by {
                    lemma_count_push(head, address, a);
                    assert(before@.references(a) == occurrences(before.files@, a) + count_of(
                        head,
                        a,
                    ));
                }
                assert forall|a: [u8; 32]|
                    #![trigger self@.chunks[a]]
                    self@.chunks.contains_key(a) implies self@.chunks[a].reference_count == old(
                        self,
                    )@.chunks[a].reference_count + count_of(next, a) by {
                    lemma_count_push(head, address, a);
                }
            }
        }
        proof {
            assert(manifest@.subrange(0, manifest@.len() as int) =~= manifest@);
            assert(self@.chunks =~= old(self)@.rebalanced(Seq::empty(), manifest@));
        }
    }

    /// The registered lengths of the chunks of `manifest`, added up, or the
    /// first position whose chunk is not registered.
    fn measure(&self, manifest: &Vec<[u8; 32]>) -> (r: Result<u128, usize>)
        requires
            self.wf(),
        ensures
            r matches Ok(bytes) ==> self@.knows_all(manifest@) && bytes == self@.manifest_bytes(
                manifest@,
            ),
            r matches Err(position) ==> position < manifest@.len() && !self@.chunks.contains_key(
                manifest@[position as int],
            ) && self@.knows_all(manifest@.subrange(0, position as int)),
    {
        let mut bytes: u128 = 0;
        let mut k: usize = 0;
        proof {
            assert(manifest@.subrange(0, 0) =~= Seq::<[u8; 32]>::empty());
        }
        while k < manifest.len()
            invariant
                k <= manifest@.len(),
                self.wf(),
                self@.knows_all(manifest@.subrange(0, k as int)),
                bytes == self@.manifest_bytes(manifest@.subrange(0, k as int)),
                bytes <= k * MAX_CHUNK_SIZE,
            decreases manifest@.len() - k,
        {
            let ghost head = manifest@.subrange(0, k as int);
            match self.find_chunk(&manifest[k]) {
                None => {
                    return Err(k);
                },
                Some(i) => {
                    proof {
                        let next = manifest@.subrange(0, k + 1);
                        assert(next.drop_last() =~= head);
                        assert(next.last() == manifest@[k as int]);
                        assert(self.chunks@[i as int].size <= MAX_CHUNK_SIZE);
                        assert((k + 1) * MAX_CHUNK_SIZE == k * MAX_CHUNK_SIZE + MAX_CHUNK_SIZE)
                            by (nonlinear_arith);
                        assert(k * MAX_CHUNK_SIZE <= 0xffff_ffff_ffff_ffff * 0x40_0000)
                            by (nonlinear_arith)
                            requires
                                0 <= k <= 0xffff_ffff_ffff_ffff,
                                0 <= MAX_CHUNK_SIZE <= 0x40_0000,
                        ;
                        assert forall|j: int| 0 <= j < next.len() implies self@.chunks.contains_key(
                            #[trigger] next[j],
                        ) by {
                            if j < k {
                                assert(head[j] == next[j]);
                            }
                        }
                    }
                    bytes = bytes + self.chunks[i].size as u128;
                },
            }
            k = k + 1;
        }
        proof {
            assert(manifest@.subrange(0, manifest@.len() as int) =~= manifest@);
        }
        Ok(bytes)
    }

    /// Stores `record` as the state of its path in `folder`, in place of what
    /// was stored for that path, and moves the references from the old manifest
    /// to the new one. All of it happens or none: a manifest with an
    /// unregistered chunk, or one whose chunk lengths do not add up to the
    /// file's size, is refused and leaves the index as it was.
    pub fn commit(&mut self, folder: [u8; 16], record: FileRecord) -> (r: Result<(), IndexError>)
        requires
            old(self).wf(),
        ensures
            final(self).wf(),
            r is Ok ==> old(self)@.accepts(folder, record@) && final(self)@ == old(
                self,
            )@.committed(folder, record@),
            r matches Err(e) ==> old(self)@.refuses(folder, record@, e) && final(self)@ == old(
                self,
            )@,
    {
        let ghost key = (folder, record@.path);
        let bytes = match self.measure(&record.chunk_manifest) {
            Err(position) => {
                return Err(IndexError::UnknownChunk { position });
            },
            Ok(bytes) => bytes,
        };
        if bytes != record.size as u128 {
            return Err(IndexError::SizeMismatch);
        }
        let existing = self.find_file(&folder, &record.path);
        let old_len: usize = match existing {
            Some(i) => self.files[i].record.chunk_manifest.len(),
            None => 0,
        };
        proof {
            if let Some(i) = existing {
                lemma_occurrences_remove(self.files@, i as int, record.content_hash);
            }
            assert(old_len == self@.manifest_at(key).len());
        }
        let kept: u64 = self.entries - old_len as u64;
        if record.chunk_manifest.len() as u128 > (u64::MAX - kept) as u128 {
            return Err(IndexError::Full);
        }
        let new_entries: u64 = kept + record.chunk_manifest.len() as u64;
        let ghost start = *self;
        if let Some(i) = existing {
            proof {
                lemma_as_map_remove(file_keys(self.files@), file_values(self.files@), i as int);
                assert(file_keys(self.files@.remove(i as int)) =~= file_keys(self.files@).remove(
                    i as int,
                ));
                assert(file_values(self.files@.remove(i as int)) =~= file_values(
                    self.files@,
                ).remove(i as int));
            }
            let gone = self.files.remove(i);
            proof {
                assert(self@.chunks == start@.chunks);
                assert forall|a: [u8; 32]|
                    #![trigger self@.references(a)]
                    self@.references(a) == occurrences(self.files@, a) + count_of(
                        gone.record.chunk_manifest@,
                        a,
                    ) by {
                    lemma_occurrences_remove(start.files@, i as int, a);
                    assert(start@.references(a) == occurrences(start.files@, a) + count_of(
                        Seq::<[u8; 32]>::empty(),
                        a,
                    ));
                }
            }
            self.release(&gone.record.chunk_manifest);
        }
        let ghost middle = *self;
        proof {
            assert(middle@.files == start@.files.remove(key));
            assert(middle@.chunks =~= start@.rebalanced(start@.manifest_at(key), Seq::empty()));
            assert(total_entries(middle.files@) == kept);
            assert(middle@.knows_all(record@.chunk_manifest));
        }
        self.acquire(&record.chunk_manifest);
        let ghost model = record@;
        let file = IndexedFile { folder, record };
        proof {
            lemma_as_map_push(file_keys(self.files@), file_values(self.files@), key, model);
            assert(file_keys(self.files@.push(file)) =~= file_keys(self.files@).push(key));
            assert(file_values(self.files@.push(file)) =~= file_values(self.files@).push(model));
            lemma_occurrences_push(self.files@, file, model.content_hash);
        }
        let ghost raised = *self;
        self.files.push(file);
        self.entries = new_entries;
        proof {
            assert(self@.chunks == raised@.chunks);
            assert forall|a: [u8; 32]|
                #![trigger self@.references(a)]
                self@.references(a) == occurrences(self.files@, a) + count_of(
                    Seq::<[u8; 32]>::empty(),
                    a,
                ) by {
                lemma_occurrences_push(raised.files@, file, a);
                assert(raised@.references(a) == occurrences(raised.files@, a) + count_of(
                    model.chunk_manifest,
                    a,
                ));
            }
            assert(self@.files =~= start@.files.insert(key, model));
            assert forall|a: [u8; 32]| start@.chunks.contains_key(a) implies #[trigger] start@.chunks[a].reference_count
                >= count_of(start@.manifest_at(key), a) by {
                assert(start@.references(a) == occurrences(start.files@, a) + count_of(
                    Seq::<[u8; 32]>::empty(),
                    a,
                ));
                if let Some(i) = existing {
                    lemma_occurrences_remove(start.files@, i as int, a);
                }
            }
            assert(self@.chunks =~= start@.rebalanced(
                start@.manifest_at(key),
                model.chunk_manifest,
            ));
        }
        Ok(())
    }
}

impl SyncIndex {
    /// Stops tracking the file at `path` in `folder` and gives up the
    /// references of its manifest. Hands back the record that was stored.
    pub fn remove(&mut self, folder: &[u8; 16], path: &String) -> (gone: Option<FileRecord>)
        requires
            old(self).wf(),
        ensures
            final(self).wf(),
            gone is Some <==> old(self)@.files.contains_key((*folder, path@)),
            gone matches Some(record) ==> record@ == old(self)@.files[(*folder, path@)],
            final(self)@ == (if gone is Some {
                old(self)@.dropped((*folder, path@))
            } else {
                old(self)@
            }),
    {
        let ghost key = (*folder, path@);
        match self.find_file(folder, path) {
            None => None,
            Some(i) => {
                let ghost start = *self;
                proof {
                    lemma_as_map_remove(file_keys(self.files@), file_values(self.files@), i as int);
                    assert(file_keys(self.files@.remove(i as int)) =~= file_keys(
                        self.files@,
                    ).remove(i as int));
                    assert(file_values(self.files@.remove(i as int)) =~= file_values(
                        self.files@,
                    ).remove(i as int));
                    lemma_occurrences_remove(self.files@, i as int, self.files@[i as int].record.content_hash);
                }
                let gone = self.files.remove(i);
                self.entries = self.entries - gone.record.chunk_manifest.len() as u64;
                proof {
                    assert(self@.chunks == start@.chunks);
                    assert forall|a: [u8; 32]|
                        #![trigger self@.references(a)]
                        self@.references(a) == occurrences(self.files@, a) + count_of(
                            gone.record.chunk_manifest@,
                            a,
                        ) by {
                        lemma_occurrences_remove(start.files@, i as int, a);
                        assert(start@.references(a) == occurrences(start.files@, a) + count_of(
                            Seq::<[u8; 32]>::empty(),
                            a,
                        ));
                    }
                }
                self.release(&gone.record.chunk_manifest);
                proof {
                    assert(self@.files == start@.files.remove(key));
                }
                Some(gone.record)
            },
        }
    }

    /// Drops the record of the chunk at `address` if no manifest names it.
    /// Says whether a record was dropped.
    pub fn forget_chunk(&mut self, address: &[u8; 32]) -> (dropped: bool)
        requires
            old(self).wf(),
        ensures
            final(self).wf(),
            dropped == (old(self)@.chunks.contains_key(*address) && old(self)@.references(*address)
                == 0),
            final(self)@.files == old(self)@.files,
            final(self)@.entries == old(self)@.entries,
            final(self)@.chunks == (if dropped {
                old(self)@.chunks.remove(*address)
            } else {
                old(self)@.chunks
            }),
    {
        match self.find_chunk(address) {
            None => false,
            Some(i) => {
                if self.chunks[i].reference_count != 0 {
                    false
                } else {
                    let ghost before = *self;
                    proof {
                        lemma_as_map_remove(chunk_keys(self.chunks@), self.chunks@, i as int);
                        assert(chunk_keys(self.chunks@.remove(i as int)) =~= chunk_keys(
                            self.chunks@,
                        ).remove(i as int));
                    }
                    self.chunks.remove(i);
                    proof {
                        assert forall|a: [u8; 32]|
                            #![trigger self@.references(a)]
                            self@.references(a) == occurrences(self.files@, a) + count_of(
                                Seq::<[u8; 32]>::empty(),
                                a,
                            ) by {
                            assert(before@.references(a) == occurrences(before.files@, a)
                                + count_of(Seq::<[u8; 32]>::empty(), a));
                        }
                    }
                    true
                }
            },
        }
    }

    /// The addresses of the registered chunks that no manifest names: those
    /// that may be evicted.
    pub fn unreferenced(&self) -> (free: Vec<[u8; 32]>)
        requires
            self.wf(),
        ensures
            forall|a: [u8; 32]|
                free@.contains(a) <==> self@.chunks.contains_key(a) && self@.references(a) == 0,
            free@.no_duplicates(),
    {
        let mut free: Vec<[u8; 32]> = Vec::new();
        let mut i: usize = 0;
        while i < self.chunks.len()
            invariant
                i <= self.chunks@.len(),
                self.wf(),
                forall|a: [u8; 32]|
                    free@.contains(a) <==> exists|j: int|
                        0 <= j < i && (#[trigger] self.chunks@[j]).address == a
                            && self.chunks@[j].reference_count == 0,
                free@.no_duplicates(),
            decreases self.chunks@.len() - i,
        {
            let record = self.chunks[i];
            if record.reference_count == 0 {
                let ghost before = free@;
                proof {
                    if before.contains(record.address) {
                        let j = choose|j: int|
                            0 <= j < i && (#[trigger] self.chunks@[j]).address == record.address
                                && self.chunks@[j].reference_count == 0;
                        assert(chunk_keys(self.chunks@)[j] == chunk_keys(self.chunks@)[i as int]);
                    }
                }
                free.push(record.address);
                proof {
                    assert forall|a: [u8; 32]| free@.contains(a) <==> exists|j: int|
                        0 <= j < i + 1 && (#[trigger] self.chunks@[j]).address == a
                            && self.chunks@[j].reference_count == 0 by {
                        if free@.contains(a) {
                            let k = free@.index_of(a);
                            if k < before.len() {
                                assert(before[k] == a);
                                assert(before.contains(a));
                            } else {
                                assert(self.chunks@[i as int].address == a);
                            }
                        }
                        if exists|j: int|
                            0 <= j < i + 1 && (#[trigger] self.chunks@[j]).address == a
                                && self.chunks@[j].reference_count == 0 {
                            let j = choose|j: int|
                                0 <= j < i + 1 && (#[trigger] self.chunks@[j]).address == a
                                    && self.chunks@[j].reference_count == 0;
                            if j < i {
                                assert(before.contains(a));
                                let k = before.index_of(a);
                                assert(free@[k] == a);
                            } else {
                                assert(free@[before.len() as int] == a);
                            }
                        }
                    }
                    assert forall|x: int, y: int|
                        0 <= x < free@.len() && 0 <= y < free@.len() && x != y implies free@[x]
                        != free@[y] by {
                        if x < before.len() && y < before.len() {
                            assert(before[x] != before[y]);
                        } else if x < before.len() {
                            assert(before.contains(before[x]));
                        } else {
                            assert(before.contains(before[y]));
                        }
                    }
                }
            }
            i = i + 1;
        }
        proof {
            assert forall|a: [u8; 32]|
                free@.contains(a) <==> self@.chunks.contains_key(a) && self@.references(a)
                    == 0 by {
                if free@.contains(a) {
                    let j = choose|j: int|
                        0 <= j < self.chunks@.len() && (#[trigger] self.chunks@[j]).address == a
                            && self.chunks@[j].reference_count == 0;
                    assert(chunk_keys(self.chunks@)[j] == a);
                    lemma_as_map_at(chunk_keys(self.chunks@), self.chunks@, j);
                }
                if self@.chunks.contains_key(a) && self@.references(a) == 0 {
                    let j = chunk_keys(self.chunks@).index_of(a);
                    assert(chunk_keys(self.chunks@)[j] == a);
                    lemma_as_map_at(chunk_keys(self.chunks@), self.chunks@, j);
                    assert(self.chunks@[j].address == a);
                }
            }
        }
        free
    }

    /// A chunk has references exactly when a tracked file lists it.
    pub proof fn lemma_referenced_is_live(&self, address: [u8; 32])
        requires
            self.wf(),
        ensures
            self@.references(address) > 0 <==> self@.is_live(address),
    {
        lemma_occurrences_live(self.files@, address);
        assert(self@.references(address) == occurrences(self.files@, address) + count_of(
            Seq::<[u8; 32]>::empty(),
            address,
        ));
        let keys = file_keys(self.files@);
        let values = file_values(self.files@);
        if self@.references(address) > 0 {
            let i = choose|i: int|
                0 <= i < self.files@.len() && (#[trigger] self.files@[i]).record.chunk_manifest@.contains(
                    address,
                );
            lemma_as_map_at(keys, values, i);
            assert(self@.files.contains_key(keys[i]) && self@.files[keys[i]].chunk_manifest.contains(
                address,
            ));
        }
        if self@.is_live(address) {
            let key = choose|key: PathKey| #[trigger]
                self@.files.contains_key(key) && self@.files[key].chunk_manifest.contains(address);
            let i = keys.index_of(key);
            lemma_as_map_at(keys, values, i);
            assert(self.files@[i].record.chunk_manifest@.contains(address));
        }
    }
}

proof fn lemma_lists_push(paths: Seq<String>, added: String, path: Seq<char>)
    ensures
        lists(paths.push(added), path) <==> lists(paths, path) || added@ == path,
{
    let longer = paths.push(added);
    if lists(paths, path) {
        let k = choose|k: int| 0 <= k < paths.len() && (#[trigger] paths[k])@ == path;
        assert(longer[k]@ == path);
    }
    if added@ == path {
        assert(longer[paths.len() as int]@ == path);
    }
    if lists(longer, path) {
        let k = choose|k: int| 0 <= k < longer.len() && (#[trigger] longer[k])@ == path;
        if k < paths.len() {
            assert(paths[k]@ == path);
        }
    }
}

/// Whether `observed` holds an entry for `path`.
fn observes(observed: &Vec<ObservedFile>, path: &String) -> (seen: bool)
    ensures
        seen == observed_at(observed_models(observed@), path@),
{
    let mut i: usize = 0;
    while i < observed.len()
        invariant
            i <= observed@.len(),
            forall|j: int| 0 <= j < i ==> (#[trigger] observed_models(observed@)[j]).path != path@,
        decreases observed@.len() - i,
    {
        if observed[i].path == *path {
            assert(observed_models(observed@)[i as int].path == path@);
            return true;
        }
        i = i + 1;
    }
    false
}

impl SyncIndex {
    /// The paths whose observed state differs from the stored record: files
    /// seen in another version than the stored one, files seen but not
    /// tracked, and files tracked in `folder` but not seen.
    pub fn diff(&self, folder: &[u8; 16], observed: &Vec<ObservedFile>) -> (changed: Vec<String>)
        requires
            self.wf(),
        ensures
            forall|path: Seq<char>|
                lists(changed@, path) <==> self@.differs(
                    *folder,
                    observed_models(observed@),
                    path,
                ),
    {
        let ghost seen = observed_models(observed@);
        let ghost keys = file_keys(self.files@);
        let mut changed: Vec<String> = Vec::new();
        let mut i: usize = 0;
        while i < observed.len()
            invariant
                i <= observed@.len(),
                self.wf(),
                seen == observed_models(observed@),
                forall|path: Seq<char>|
                    lists(changed@, path) <==> self@.seen_changed(*folder, seen, path, i as int),
            decreases observed@.len() - i,
        {
            let entry = &observed[i];
            assert(seen[i as int] == entry@);
            let differs = match self.find_file(folder, &entry.path) {
                Some(j) => {
                    let stored = self.files[j].record.version();
                    !same_version(&stored, &entry.version)
                },
                None => true,
            };
            let ghost before = changed@;
            if differs {
                changed.push(entry.path.clone());
            }
            proof {
                assert forall|path: Seq<char>|
                    lists(changed@, path) <==> self@.seen_changed(
                        *folder,
                        seen,
                        path,
                        i + 1,
                    ) by {
                    if differs {
                        lemma_lists_push(before, changed@.last(), path);
                        assert(changed@ =~= before.push(changed@.last()));
                    }
                    let earlier = self@.seen_changed(*folder, seen, path, i as int);
                    let now = self@.seen_changed(*folder, seen, path, i + 1);
                    if earlier {
                        let j = choose|j: int|
                            0 <= j < i && (#[trigger] seen[j]).path == path && !(
                            self@.files.contains_key((*folder, path)) && self@.files[(
                                *folder,
                                path,
                            )].version() == seen[j].version);
                        assert(0 <= j < i + 1 && seen[j].path == path);
                        assert(now);
                    }
                    if differs && entry@.path == path {
                        assert(seen[i as int].path == path);
                        assert(now);
                    }
                    if now && !earlier {
                        let j = choose|j: int|
                            0 <= j < i + 1 && (#[trigger] seen[j]).path == path && !(
                            self@.files.contains_key((*folder, path)) && self@.files[(
                                *folder,
                                path,
                            )].version() == seen[j].version);
                        assert(j == i);
                        assert(differs && entry@.path == path);
                    }
                }
            }
            i = i + 1;
        }
        let mut k: usize = 0;
        let ghost first = changed@;
        while k < self.files.len()
            invariant
                k <= self.files@.len(),
                self.wf(),
                seen == observed_models(observed@),
                keys == file_keys(self.files@),
                forall|path: Seq<char>|
                    lists(first, path) <==> self@.seen_changed(
                        *folder,
                        seen,
                        path,
                        seen.len() as int,
                    ),
                forall|path: Seq<char>|
                    lists(changed@, path) <==> (lists(first, path) || (tracked_upto(
                        keys,
                        (*folder, path),
                        k as int,
                    ) && !observed_at(seen, path))),
            decreases self.files@.len() - k,
        {
            let file = &self.files[k];
            assert(keys[k as int] == (file.folder, file.record.path@));
            let missing = same_folder(&file.folder, folder) && !observes(
                observed,
                &file.record.path,
            );
            let ghost before = changed@;
            if missing {
                changed.push(file.record.path.clone());
            }
            proof {
                assert forall|path: Seq<char>|
                    lists(changed@, path) <==> (lists(first, path) || (tracked_upto(
                        keys,
                        (*folder, path),
                        k + 1,
                    ) && !observed_at(seen, path))) by {
                    if missing {
                        lemma_lists_push(before, changed@.last(), path);
                        assert(changed@ =~= before.push(changed@.last()));
                    }
                    let key = (*folder, path);
                    let earlier = tracked_upto(keys, key, k as int);
                    let now = tracked_upto(keys, key, k + 1);
                    if earlier {
                        let j = choose|j: int| 0 <= j < k && #[trigger] keys[j] == key;
                        assert(0 <= j < k + 1 && keys[j] == key);
                        assert(now);
                    }
                    if keys[k as int] == key {
                        assert(now);
                    }
                    if now && !earlier {
                        let j = choose|j: int| 0 <= j < k + 1 && #[trigger] keys[j] == key;
                        assert(j == k);
                    }
                }
            }
            k = k + 1;
        }
        proof {
            assert forall|path: Seq<char>|
                lists(changed@, path) <==> self@.differs(*folder, seen, path) by {
                let key = (*folder, path);
                if tracked_upto(keys, key, keys.len() as int) {
                    let j = choose|j: int| 0 <= j < keys.len() && #[trigger] keys[j] == key;
                    assert(keys.contains(key));
                }
                if self@.files.contains_key(key) {
                    let j = keys.index_of(key);
                    assert(0 <= j < keys.len() && keys[j] == key);
                }
            }
        }
        changed
    }

    /// The paths of the files tracked in `folder`, each once.
    pub fn paths(&self, folder: &[u8; 16]) -> (found: Vec<String>)
        requires
            self.wf(),
        ensures
            forall|path: Seq<char>|
                lists(found@, path) <==> self@.files.contains_key((*folder, path)),
            path_models(found@).no_duplicates(),
            found@.len() <= self@.files.dom().len(),
    {
        proof {
            crate::assoc::lemma_dom_len(file_keys(self.files@), file_values(self.files@));
        }
        let mut found: Vec<String> = Vec::new();
        let mut k: usize = 0;
        let ghost keys = file_keys(self.files@);
        while k < self.files.len()
            invariant
                k <= self.files@.len(),
                self.wf(),
                keys == file_keys(self.files@),
                forall|path: Seq<char>|
                    lists(found@, path) <==> exists|j: int|
                        0 <= j < k && #[trigger] keys[j] == (*folder, path),
                path_models(found@).no_duplicates(),
                found@.len() <= k,
            decreases self.files@.len() - k,
        {
            let file = &self.files[k];
            assert(keys[k as int] == (file.folder, file.record.path@));
            if same_folder(&file.folder, folder) {
                let ghost before = found@;
                found.push(file.record.path.clone());
                proof {
                    let added = found@.last();
                    assert(found@ =~= before.push(added));
                    assert forall|path: Seq<char>|
                        lists(found@, path) <==> exists|j: int|
                            0 <= j < k + 1 && #[trigger] keys[j] == (*folder, path) by {
                        lemma_lists_push(before, added, path);
                        if exists|j: int| 0 <= j < k && #[trigger] keys[j] == (*folder, path) {
                            let j = choose|j: int|
                                0 <= j < k && #[trigger] keys[j] == (*folder, path);
                            assert(0 <= j < k + 1 && keys[j] == (*folder, path));
                        }
                        if exists|j: int| 0 <= j < k + 1 && #[trigger] keys[j] == (*folder, path) {
                            let j = choose|j: int|
                                0 <= j < k + 1 && #[trigger] keys[j] == (*folder, path);
                            if j == k {
                                assert(added@ == path);
                            }
                        }
                    }
                    assert(!lists(before, added@)) by {
                        if lists(before, added@) {
                            let j = choose|j: int|
                                0 <= j < k && #[trigger] keys[j] == (*folder, added@);
                            assert(keys[j] == keys[k as int]);
                        }
                    }
                    let models = path_models(found@);
                    assert forall|x: int, y: int|
                        0 <= x < models.len() && 0 <= y < models.len() && x != y implies models[x]
                        != models[y] by {
                        if x < before.len() && y < before.len() {
                            assert(path_models(before)[x] != path_models(before)[y]);
                        } else if x < before.len() {
                            assert(before[x]@ == models[x]);
                        } else {
                            assert(before[y]@ == models[y]);
                        }
                    }
                }
            } else {
                proof {
                    assert forall|path: Seq<char>|
                        lists(found@, path) <==> exists|j: int|
                            0 <= j < k + 1 && #[trigger] keys[j] == (*folder, path) by {
                        if exists|j: int| 0 <= j < k && #[trigger] keys[j] == (*folder, path) {
                            let j = choose|j: int|
                                0 <= j < k && #[trigger] keys[j] == (*folder, path);
                            assert(0 <= j < k + 1 && keys[j] == (*folder, path));
                        }
                        if exists|j: int| 0 <= j < k + 1 && #[trigger] keys[j] == (*folder, path) {
                            let j = choose|j: int|
                                0 <= j < k + 1 && #[trigger] keys[j] == (*folder, path);
                            assert(j < k);
                        }
                    }
                }
            }
            k = k + 1;
        }
        proof {
            assert forall|path: Seq<char>|
                lists(found@, path) <==> self@.files.contains_key((*folder, path)) by {
                if exists|j: int| 0 <= j < keys.len() && #[trigger] keys[j] == (*folder, path) {
                    let j = choose|j: int| 0 <= j < keys.len() && #[trigger] keys[j] == (
                        *folder,
                        path,
                    );
                    assert(keys.contains((*folder, path)));
                }
                if self@.files.contains_key((*folder, path)) {
                    let j = keys.index_of((*folder, path));
                    assert(0 <= j < keys.len() && keys[j] == (*folder, path));
                }
            }
        }
        found
    }

    /// Stops tracking every file of `folder`, giving up the references of
    /// their manifests. Hands back the paths that were tracked.
    pub fn remove_folder(&mut self, folder: &[u8; 16]) -> (gone: Vec<String>)
        requires
            old(self).wf(),
        ensures
            final(self).wf(),
            forall|path: Seq<char>|
                lists(gone@, path) <==> old(self)@.files.contains_key((*folder, path)),
            path_models(gone@).no_duplicates(),
            final(self)@ == old(self)@.dropped_all(*folder, path_models(gone@)),
    {
        let gone = self.paths(folder);
        let ghost models = path_models(gone@);
        let mut i: usize = 0;
        proof {
            assert(models.subrange(0, 0) =~= Seq::<Seq<char>>::empty());
        }
        while i < gone.len()
            invariant
                i <= gone@.len(),
                self.wf(),
                models == path_models(gone@),
                self@ == old(self)@.dropped_all(*folder, models.subrange(0, i as int)),
            decreases gone@.len() - i,
        {
            let ghost before = self@;
            let removed = self.remove(folder, &gone[i]);
            proof {
                let head = models.subrange(0, i + 1);
                assert(head.drop_last() =~= models.subrange(0, i as int));
                assert(head.last() == gone@[i as int]@);
                if removed is None {
                    lemma_dropped_absent(before, (*folder, gone@[i as int]@));
                }
            }
            i = i + 1;
        }
        proof {
            assert(models.subrange(0, gone@.len() as int) =~= models);
        }
        gone
    }
}

/// Dropping a file that is not tracked changes nothing.
pub proof fn lemma_dropped_absent(model: IndexModel, key: PathKey)
    requires
        !model.files.contains_key(key),
    ensures
        model.dropped(key) == model,
{
    let after = model.dropped(key);
    assert(after.files =~= model.files);
    assert(after.chunks =~= model.chunks);
}

/// Whether two folder identifiers hold the same 16 bytes.
pub fn same_folder(a: &[u8; 16], b: &[u8; 16]) -> (same: bool)
    ensures
        same == (*a == *b),
{
    let mut i: usize = 0;
    while i < 16
        invariant
            i <= 16,
            forall|j: int| 0 <= j < i ==> a@[j] == b@[j],
        decreases 16 - i,
    {
        if a[i] != b[i] {
            return false;
        }
        i = i + 1;
    }
    assert(*a =~= *b);
    true
}

} // verus!
