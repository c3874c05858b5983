//! The volume manager's bookkeeping of open directories and open files.
//!
//! The manager hands out handles for open directories and files, refuses to
//! open a directory twice or a file twice, keeps each open file's position
//! and length, and decides what must be read from or written to the volume.
//! The reads and writes themselves, and the search of directories for names,
//! are done by the caller, which hands their outcome back to the manager.

use vstd::prelude::*;

use crate::filesystem::{
    moved_to, next_search_id, nth_search_id, ClusterId, DirEntry, Directory, DirectoryInfo, Error, File,
    FileInfo, FilenameError, Mode, SearchId, SearchIdGenerator, ShortFileName, Timestamp,
    Attributes, BlockIdx, ATTR_ARCHIVE, ATTR_DIRECTORY, ATTR_READ_ONLY, RESERVED_ENTRIES,
    ROOT_DIR_CLUSTER,
};
use crate::handles::push_within;

verus! {

/// Number of distinct values an identifier can take.
pub open spec fn id_space() -> nat {
    0x1_0000_0000
}

/// The largest size a file can have.
pub const MAX_FILE_SIZE: u32 = 0xFFFF_FFFF;

/// Bytes in one block of the device.
pub const BLOCK_LEN: u32 = 512;

/// The first identifier handed out by a manager made with `new`.
pub const DEFAULT_ID_OFFSET: u32 = 5000;

/// What a volume manager holds, as plain values.
pub struct VolumeManagerView {
    /// The identifier the next handle gets.
    pub next_id: u32,
    /// The identifier of the first handle the manager handed out.
    pub first_id: u32,
    /// How many identifiers the manager has handed out.
    pub issued: nat,
    /// The open directories, in the order the table holds them.
    pub dirs: Seq<DirectoryInfo>,
    /// The open files, in the order the table holds them.
    pub files: Seq<FileInfo>,
    /// How many directories can be open at once.
    pub dir_limit: nat,
    /// How many files can be open at once.
    pub file_limit: nat,
}

/// Whether `id` is one of the first `issued` identifiers from `first`.
pub open spec fn was_issued(first: u32, issued: nat, id: u32) -> bool {
    exists|k: nat| k < issued && #[trigger] nth_search_id(first, k) == id
}

/// Whether an open directory has the handle `d`.
pub open spec fn has_dir(dirs: Seq<DirectoryInfo>, d: Directory) -> bool {
    exists|i: int| 0 <= i < dirs.len() && #[trigger] dirs[i].directory_id == d
}

/// Whether an open directory starts at cluster `c`.
pub open spec fn has_dir_cluster(dirs: Seq<DirectoryInfo>, c: ClusterId) -> bool {
    exists|i: int| 0 <= i < dirs.len() && #[trigger] dirs[i].cluster == c
}

/// Whether an open file has the handle `f`.
pub open spec fn has_file(files: Seq<FileInfo>, f: File) -> bool {
    exists|i: int| 0 <= i < files.len() && #[trigger] files[i].file_id == f
}

/// The position of the first open directory with handle `d`.
pub open spec fn dir_index(dirs: Seq<DirectoryInfo>, d: Directory) -> int
    recommends
        has_dir(dirs, d),
{
    choose|i: int|
        0 <= i < dirs.len() && dirs[i].directory_id == d && forall|j: int|
            0 <= j < i ==> #[trigger] dirs[j].directory_id != d
}

/// The position of the first open file with handle `f`.
pub open spec fn file_index(files: Seq<FileInfo>, f: File) -> int
    recommends
        has_file(files, f),
{
    choose|i: int|
        0 <= i < files.len() && files[i].file_id == f && forall|j: int|
            0 <= j < i ==> #[trigger] files[j].file_id != f
}

/// The open file with handle `f`.
pub open spec fn file_of(files: Seq<FileInfo>, f: File) -> FileInfo
    recommends
        has_file(files, f),
{
    files[file_index(files, f)]
}

/// Whether an open file is stored at the same place on the volume as
/// `entry`.
pub open spec fn entry_is_open(files: Seq<FileInfo>, entry: DirEntry) -> bool {
    exists|i: int|
        0 <= i < files.len() && #[trigger] files[i].entry.entry_block == entry.entry_block
            && files[i].entry.entry_offset == entry.entry_offset
}

/// The table invariants: within capacity, every handle was handed out by
/// the manager, handles are distinct as long as the identifiers have not
/// wrapped around, no directory is open twice, and every open file's
/// position lies within the file and at or after the start of the cluster
/// it remembers.
pub open spec fn tables_ok(v: VolumeManagerView) -> bool {
    &&& v.dirs.len() <= v.dir_limit
    &&& v.files.len() <= v.file_limit
    &&& v.next_id == nth_search_id(v.first_id, v.issued)
    &&& forall|i: int|
        0 <= i < v.dirs.len() ==> was_issued(v.first_id, v.issued, #[trigger] v.dirs[i].directory_id.0.0)
    &&& forall|i: int|
        0 <= i < v.files.len() ==> was_issued(v.first_id, v.issued, #[trigger] v.files[i].file_id.0.0)
    &&& v.issued <= id_space() ==> forall|i: int, j: int|
        0 <= i < j < v.dirs.len() ==> #[trigger] v.dirs[i].directory_id != #[trigger] v.dirs[j].directory_id
    &&& v.issued <= id_space() ==> forall|i: int, j: int|
        0 <= i < j < v.files.len() ==> #[trigger] v.files[i].file_id != #[trigger] v.files[j].file_id
    &&& forall|i: int, j: int|
        0 <= i < j < v.dirs.len() ==> #[trigger] v.dirs[i].cluster != #[trigger] v.dirs[j].cluster
    &&& forall|i: int|
        0 <= i < v.files.len() ==> #[trigger] v.files[i].current_offset <= v.files[i].entry.size
            && v.files[i].current_cluster.0 <= v.files[i].current_offset
}

/// The manager after it handed out one more identifier.
pub open spec fn issued_one(v: VolumeManagerView) -> VolumeManagerView {
    VolumeManagerView { next_id: next_search_id(v.next_id), issued: v.issued + 1, ..v }
}

/// `s` with the entry at `i` replaced by the last one and the last one
/// dropped, as `swap_remove` leaves a table.
pub open spec fn swap_removed<T>(s: Seq<T>, i: int) -> Seq<T> {
    s.update(i, s.last()).drop_last()
}

/// The manager with the open file `f` replaced by `info`.
pub open spec fn with_file(v: VolumeManagerView, f: File, info: FileInfo) -> VolumeManagerView {
    VolumeManagerView { files: v.files.update(file_index(v.files, f), info), ..v }
}

/// The number of bytes one step of a read takes: no more than the block
/// holds from the position on, the caller's buffer has room for, and the
/// file has left.
pub open spec fn read_chunk(block_avail: usize, space: usize, info: FileInfo) -> int {
    let a = if block_avail < space {
        block_avail as int
    } else {
        space as int
    };
    let left = info.entry.size - info.current_offset;
    if left < a {
        left
    } else {
        a
    }
}

/// An open file once a write to it started: its entry must be written back
/// when it closes.
pub open spec fn started_write(info: FileInfo) -> FileInfo {
    FileInfo { dirty: true, ..info }
}

/// An open file once a write to it ended at time `now`: its entry has the
/// archive bit set and `now` as its modification time.
pub open spec fn finished_write(info: FileInfo, now: Timestamp) -> FileInfo {
    FileInfo {
        entry: DirEntry {
            attributes: Attributes((info.entry.attributes.0 & !ATTR_ARCHIVE) | ATTR_ARCHIVE),
            mtime: now,
            ..info.entry
        },
        ..info
    }
}

/// The entry to write back to the volume when the open file `info`
/// closes: its entry when it was written to, and none otherwise.
pub open spec fn write_back_entry(info: FileInfo) -> Option<DirEntry> {
    if info.dirty {
        Some(info.entry)
    } else {
        None
    }
}

/// Whether the attributes of `entry` mark a directory.
pub open spec fn is_dir_entry(entry: DirEntry) -> bool {
    entry.attributes.0 & ATTR_DIRECTORY == ATTR_DIRECTORY
}

/// Whether the attributes of `entry` mark it read-only.
pub open spec fn is_read_only_entry(entry: DirEntry) -> bool {
    entry.attributes.0 & ATTR_READ_ONLY == ATTR_READ_ONLY
}

/// The cluster that stands for the root directory.
pub open spec fn root_cluster() -> ClusterId {
    ClusterId(ROOT_DIR_CLUSTER)
}

/// The mode that `mode` comes down to, given whether the entry exists.
pub open spec fn solved_mode(mode: Mode, exists: bool) -> Mode {
    match mode {
        Mode::ReadWriteCreateOrAppend => if exists {
            Mode::ReadWriteAppend
        } else {
            Mode::ReadWriteCreate
        },
        Mode::ReadWriteCreateOrTruncate => if exists {
            Mode::ReadWriteTruncate
        } else {
            Mode::ReadWriteCreate
        },
        _ => mode,
    }
}

/// What remains to be done to open a file.
#[derive(Debug, PartialEq, Eq)]
pub enum OpenStep {
    /// The file is open under this handle.
    Opened(File),
    /// No entry has the name: the caller writes a new entry with this name
    /// in this directory and hands it to `finish_create`.
    Create(DirectoryInfo, ShortFileName),
    /// The file is to be emptied: the caller frees the clusters of the
    /// chain that starts at the entry's first cluster, writes the entry
    /// (already of length zero, with the new modification time) back, and
    /// hands the file to `finish_open`.
    Truncate(FileInfo),
}

/// Whether `mode` creates the file when no entry has the name.
pub open spec fn is_create_mode(mode: Mode) -> bool {
    ||| mode == Mode::ReadWriteCreate
    ||| mode == Mode::ReadWriteCreateOrTruncate
    ||| mode == Mode::ReadWriteCreateOrAppend
}

/// The open file a successful open of `entry` in `mode` records, under
/// handle `id`.
pub open spec fn fresh_file(id: u32, entry: DirEntry, mode: Mode) -> FileInfo {
    FileInfo {
        file_id: File(SearchId(id)),
        current_cluster: (0, entry.cluster),
        current_offset: 0,
        mode,
        entry,
        dirty: false,
    }
}

/// The outcome of opening the existing entry `entry` in `mode` (a mode
/// that is already resolved), and the manager afterwards.
pub open spec fn open_entry_outcome<E>(
    v: VolumeManagerView,
    entry: DirEntry,
    mode: Mode,
    now: Timestamp,
) -> (Result<OpenStep, Error<E>>, VolumeManagerView) {
    if v.files.len() == v.file_limit {
        (Err(Error::TooManyOpenFiles), v)
    } else if is_read_only_entry(entry) && mode != Mode::ReadOnly {
        (Err(Error::ReadOnly), v)
    } else if is_dir_entry(entry) {
        (Err(Error::OpenedDirAsFile), v)
    } else if entry_is_open(v.files, entry) {
        (Err(Error::FileAlreadyOpen), v)
    } else {
        let m = solved_mode(mode, true);
        let info = fresh_file(v.next_id, entry, m);
        match m {
            Mode::ReadOnly => (
                Ok(OpenStep::Opened(info.file_id)),
                VolumeManagerView { files: v.files.push(info), ..issued_one(v) },
            ),
            Mode::ReadWriteAppend => (
                Ok(OpenStep::Opened(info.file_id)),
                VolumeManagerView {
                    files: v.files.push(FileInfo { current_offset: entry.size, ..info }),
                    ..issued_one(v)
                },
            ),
            Mode::ReadWriteTruncate => (
                Ok(
                    OpenStep::Truncate(
                        FileInfo { entry: DirEntry { size: 0, mtime: now, ..entry }, ..info },
                    ),
                ),
                issued_one(v),
            ),
            _ => (Err(Error::Unsupported), issued_one(v)),
        }
    }
}

/// The outcome of opening the file `name` in `directory` in `mode`, where
/// `found` is the outcome of searching the directory for the name, and the
/// manager afterwards.
pub open spec fn open_file_outcome<E>(
    v: VolumeManagerView,
    directory: Directory,
    name: Result<ShortFileName, FilenameError>,
    mode: Mode,
    found: Result<DirEntry, Error<E>>,
    now: Timestamp,
) -> (Result<OpenStep, Error<E>>, VolumeManagerView) {
    if v.files.len() == v.file_limit {
        (Err(Error::TooManyOpenFiles), v)
    } else if !has_dir(v.dirs, directory) {
        (Err(Error::BadHandle), v)
    } else {
        match name {
            Err(e) => (Err(Error::FilenameError(e)), v),
            Ok(short_name) => match found {
                Err(_) => if is_create_mode(mode) {
                    (Ok(OpenStep::Create(v.dirs[dir_index(v.dirs, directory)], short_name)), v)
                } else {
                    (Err(Error::FileNotFound), v)
                },
                Ok(entry) => if entry_is_open(v.files, entry) {
                    (Err(Error::FileAlreadyOpen), v)
                } else if solved_mode(mode, true) == Mode::ReadWriteCreate {
                    (Err(Error::FileAlreadyExists), v)
                } else {
                    open_entry_outcome(v, entry, solved_mode(mode, true), now)
                },
            },
        }
    }
}

/// Resolves the `...OrAppend` and `...OrTruncate` modes: with an existing
/// entry they append or truncate, without one they create.
pub fn solve_mode_variant(mode: Mode, dir_entry_is_some: bool) -> (solved: Mode)
    ensures
        solved == solved_mode(mode, dir_entry_is_some),
{
    let mut mode = mode;
    if mode == Mode::ReadWriteCreateOrAppend {
        if dir_entry_is_some {
            mode = Mode::ReadWriteAppend;
        } else {
            mode = Mode::ReadWriteCreate;
        }
    } else if mode == Mode::ReadWriteCreateOrTruncate {
        if dir_entry_is_some {
            mode = Mode::ReadWriteTruncate;
        } else {
            mode = Mode::ReadWriteCreate;
        }
    }
    mode
}

/// Keeps track of the directories and files open on a FAT volume.
///
/// At most `MAX_DIRS` directories and `MAX_FILES` files can be open at once.
pub struct VolumeManager<const MAX_DIRS: usize, const MAX_FILES: usize> {
    id_generator: SearchIdGenerator,
    open_dirs: Vec<DirectoryInfo>,
    open_files: Vec<FileInfo>,
}

impl<const MAX_DIRS: usize, const MAX_FILES: usize> View for VolumeManager<MAX_DIRS, MAX_FILES> {
    type V = VolumeManagerView;

    closed spec fn view(&self) -> VolumeManagerView {
        VolumeManagerView {
            next_id: self.id_generator.next(),
            first_id: self.id_generator.first(),
            issued: self.id_generator.issued(),
            dirs: self.open_dirs@,
            files: self.open_files@,
            dir_limit: MAX_DIRS as nat,
            file_limit: MAX_FILES as nat,
        }
    }
}

impl VolumeManager<4, 4> {
    /// A manager with nothing open, whose handles are numbered from 5000,
    /// that takes at most 4 open directories and 4 open files.
    pub fn new() -> (vm: Self)
        ensures
            vm.wf(),
            vm@.dir_limit == 4,
            vm@.file_limit == 4,
            vm@.dirs.len() == 0,
            vm@.files.len() == 0,
            vm@.next_id == DEFAULT_ID_OFFSET,
            vm@.first_id == DEFAULT_ID_OFFSET,
            vm@.issued == 0,
    {
        Self::new_with_limits(DEFAULT_ID_OFFSET)
    }
}

impl<const MAX_DIRS: usize, const MAX_FILES: usize> VolumeManager<MAX_DIRS, MAX_FILES> {
    /// The manager's state is consistent.
    pub closed spec fn wf(&self) -> bool {
        &&& self.id_generator.wf()
        &&& tables_ok(self@)
    }

    /// What the consistency of a manager promises of its tables.
    pub proof fn lemma_wf(&self)
        requires
            self.wf(),
        ensures
            tables_ok(self@),
    {
    }

    /// A manager with nothing open, whose handles are numbered from
    /// `id_offset`, that takes at most `MAX_DIRS` open directories and
    /// `MAX_FILES` open files.
    pub fn new_with_limits(id_offset: u32) -> (vm: Self)
        ensures
            vm.wf(),
            vm@.dir_limit == MAX_DIRS,
            vm@.file_limit == MAX_FILES,
            vm@.dirs.len() == 0,
            vm@.files.len() == 0,
            vm@.next_id == id_offset,
            vm@.first_id == id_offset,
            vm@.issued == 0,
    {
        let vm = VolumeManager {
            id_generator: SearchIdGenerator::new(id_offset),
            open_dirs: Vec::new(),
            open_files: Vec::new(),
        };
        proof {
            lemma_nth_search_id_zero(id_offset);
        }
        vm
    }

    /// Opens the root directory.
    ///
    /// Fails with `DirAlreadyOpen` when it is open already, and with
    /// `TooManyOpenDirs` when the table is full (the handle it would have
    /// had is used up all the same).
    pub fn open_root_dir<E>(&mut self) -> (r: Result<Directory, Error<E>>)
        requires
            old(self).wf(),
        ensures
            final(self).wf(),
            if has_dir_cluster(old(self)@.dirs, root_cluster()) {
                r == Err::<Directory, Error<E>>(Error::DirAlreadyOpen) && final(self)@ == old(self)@
            } else if old(self)@.dirs.len() == old(self)@.dir_limit {
                r == Err::<Directory, Error<E>>(Error::TooManyOpenDirs) && final(self)@ == issued_one(
                    old(self)@,
                )
            } else {
                r == Ok::<Directory, Error<E>>(Directory(SearchId(old(self)@.next_id)))
                    && final(self)@ == (VolumeManagerView {
                    dirs: old(self)@.dirs.push(
                        DirectoryInfo {
                            directory_id: Directory(SearchId(old(self)@.next_id)),
                            cluster: root_cluster(),
                        },
                    ),
                    ..issued_one(old(self)@)
                })
            },
    {
        let dirs = self.open_dirs.as_slice();
        assert(dirs@ == self@.dirs);
        let mut i: usize = 0;
        #[verifier::loop_isolation(false)]
        while i < dirs.len()
            invariant
                dirs@ == old(self)@.dirs,
                0 <= i <= dirs@.len(),
                forall|j: int| 0 <= j < i ==> #[trigger] dirs@[j].cluster != root_cluster(),
            decreases dirs@.len() - i,
        {
            if dirs[i].cluster == ClusterId(ROOT_DIR_CLUSTER) {
                return Err(Error::DirAlreadyOpen);
            }
            i = i + 1;
        }
        let directory_id = Directory(self.id_generator.get());
        let dir_info = DirectoryInfo { directory_id, cluster: ClusterId(ROOT_DIR_CLUSTER) };
        proof {
            lemma_issue_one(old(self)@);
            assert(!has_dir_cluster(old(self)@.dirs, root_cluster()));
            if old(self)@.dirs.len() < old(self)@.dir_limit {
                lemma_push_dir(old(self)@, dir_info);
            }
        }
        match push_within(&mut self.open_dirs, MAX_DIRS, dir_info) {
            Ok(()) => Ok(directory_id),
            Err(_) => Err(Error::TooManyOpenDirs),
        }
    }

    /// Opens the directory that the search of `parent_dir` for a name found.
    ///
    /// `entry` is the outcome of that search (or the error met turning the
    /// name into a short file name). Fails with `TooManyOpenDirs` when the
    /// table is full, `BadHandle` when `parent_dir` is not open, the search's
    /// error when it failed, `OpenedFileAsDir` when the entry is not a
    /// directory and `DirAlreadyOpen` when it is open already; the checks
    /// come in that order.
    pub fn open_dir<E>(&mut self, parent_dir: Directory, entry: Result<DirEntry, Error<E>>) -> (r:
        Result<Directory, Error<E>>)
        requires
            old(self).wf(),
        ensures
            final(self).wf(),
            if old(self)@.dirs.len() == old(self)@.dir_limit {
                r == Err::<Directory, Error<E>>(Error::TooManyOpenDirs) && final(self)@ == old(self)@
            } else if !has_dir(old(self)@.dirs, parent_dir) {
                r == Err::<Directory, Error<E>>(Error::BadHandle) && final(self)@ == old(self)@
            } else {
                match entry {
                    Err(e) => r == Err::<Directory, Error<E>>(e) && final(self)@ == old(self)@,
                    Ok(found) => if !is_dir_entry(found) {
                        r == Err::<Directory, Error<E>>(Error::OpenedFileAsDir) && final(self)@ == old(
                            self,
                        )@
                    } else if has_dir_cluster(old(self)@.dirs, found.cluster) {
                        r == Err::<Directory, Error<E>>(Error::DirAlreadyOpen) && final(self)@ == old(
                            self,
                        )@
                    } else {
                        r == Ok::<Directory, Error<E>>(Directory(SearchId(old(self)@.next_id)))
                            && final(self)@ == (VolumeManagerView {
                            dirs: old(self)@.dirs.push(
                                DirectoryInfo {
                                    directory_id: Directory(SearchId(old(self)@.next_id)),
                                    cluster: found.cluster,
                                },
                            ),
                            ..issued_one(old(self)@)
                        })
                    },
                }
            },
    {
        if self.open_dirs.len() == MAX_DIRS {
            return Err(Error::TooManyOpenDirs);
        }
        let _parent_dir_idx: usize = self.get_dir_by_id(parent_dir)?;
        let dir_entry = match entry {
            Ok(e) => e,
            Err(e) => return Err(e),
        };
        if !dir_entry.attributes.is_directory() {
            return Err(Error::OpenedFileAsDir);
        }
        let dirs = self.open_dirs.as_slice();
        assert(dirs@ == self@.dirs);
        let mut i: usize = 0;
        #[verifier::loop_isolation(false)]
        while i < dirs.len()
            invariant
                dirs@ == old(self)@.dirs,
                0 <= i <= dirs@.len(),
                forall|j: int| 0 <= j < i ==> #[trigger] dirs@[j].cluster != dir_entry.cluster,
            decreases dirs@.len() - i,
        {
            if dirs[i].cluster == dir_entry.cluster {
                return Err(Error::DirAlreadyOpen);
            }
            i = i + 1;
        }
        let directory_id = Directory(self.id_generator.get());
        let dir_info = DirectoryInfo { directory_id, cluster: dir_entry.cluster };
        proof {
            assert(!has_dir_cluster(old(self)@.dirs, dir_entry.cluster));
            lemma_push_dir(old(self)@, dir_info);
        }
        match push_within(&mut self.open_dirs, MAX_DIRS, dir_info) {
            Ok(()) => Ok(directory_id),
            Err(_) => Err(Error::TooManyOpenDirs),
        }
    }

    /// Closes a directory. Fails with `BadHandle` when it is not open.
    pub fn close_dir<E>(&mut self, directory: Directory) -> (r: Result<(), Error<E>>)
        requires
            old(self).wf(),
        ensures
            final(self).wf(),
            if has_dir(old(self)@.dirs, directory) {
                r is Ok && final(self)@ == (VolumeManagerView {
                    dirs: swap_removed(old(self)@.dirs, dir_index(old(self)@.dirs, directory)),
                    ..old(self)@
                })
            } else {
                r == Err::<(), Error<E>>(Error::BadHandle) && final(self)@ == old(self)@
            },
    {
        let idx: usize = self.get_dir_by_id(directory)?;
        proof {
            lemma_remove_dir(old(self)@, idx as int);
        }
        self.open_dirs.swap_remove(idx);
        Ok(())
    }

    /// The open directory `directory`, to be searched for a name (or
    /// listed) by the caller. Fails with `BadHandle` when it is not open.
    pub fn find_directory_entry<E>(&self, directory: Directory) -> (r: Result<DirectoryInfo, Error<E>>)
        requires
            self.wf(),
        ensures
            if has_dir(self@.dirs, directory) {
                r == Ok::<DirectoryInfo, Error<E>>(self@.dirs[dir_index(self@.dirs, directory)])
            } else {
                r == Err::<DirectoryInfo, Error<E>>(Error::BadHandle)
            },
    {
        let directory_idx: usize = self.get_dir_by_id(directory)?;
        Ok(self.open_dirs[directory_idx])
    }

    /// Whether an open file is stored at the same place as `dir_entry`.
    fn file_is_open(&self, dir_entry: &DirEntry) -> (b: bool)
        requires
            self.wf(),
        ensures
            b == entry_is_open(self@.files, *dir_entry),
    {
        let files = self.open_files.as_slice();
        assert(files@ == self@.files);
        let mut i: usize = 0;
        while i < files.len()
            invariant
                files@ == self@.files,
                0 <= i <= files@.len(),
                forall|j: int|
                    0 <= j < i ==> !(#[trigger] files@[j].entry.entry_block == dir_entry.entry_block
                        && files@[j].entry.entry_offset == dir_entry.entry_offset),
            decreases files@.len() - i,
        {
            if files[i].entry.entry_block == dir_entry.entry_block && files[i].entry.entry_offset
                == dir_entry.entry_offset {
                return true;
            }
            i = i + 1;
        }
        false
    }

    /// Opens the existing entry `dir_entry` in `mode`.
    fn open_dir_entry<E>(&mut self, dir_entry: DirEntry, mode: Mode, now: Timestamp) -> (r: Result<
        OpenStep,
        Error<E>,
    >)
        requires
            old(self).wf(),
        ensures
            final(self).wf(),
            r == open_entry_outcome::<E>(old(self)@, dir_entry, mode, now).0,
            final(self)@ == open_entry_outcome::<E>(old(self)@, dir_entry, mode, now).1,
    {
        if self.open_files.len() == MAX_FILES {
            return Err(Error::TooManyOpenFiles);
        }
        if dir_entry.attributes.is_read_only() && mode != Mode::ReadOnly {
            return Err(Error::ReadOnly);
        }
        if dir_entry.attributes.is_directory() {
            return Err(Error::OpenedDirAsFile);
        }
        if self.file_is_open(&dir_entry) {
            return Err(Error::FileAlreadyOpen);
        }
        let mode = solve_mode_variant(mode, true);
        let file_id = File(self.id_generator.get());
        proof {
            lemma_issue_one(old(self)@);
        }
        match mode {
            Mode::ReadOnly => {
                let file = FileInfo {
                    file_id,
                    current_cluster: (0, dir_entry.cluster),
                    current_offset: 0,
                    mode,
                    entry: dir_entry,
                    dirty: false,
                };
                proof {
                    lemma_push_new_file(old(self)@, file);
                }
                match push_within(&mut self.open_files, MAX_FILES, file) {
                    Ok(()) => Ok(OpenStep::Opened(file_id)),
                    Err(_) => Err(Error::TooManyOpenFiles),
                }
            },
            Mode::ReadWriteAppend => {
                let mut file = FileInfo {
                    file_id,
                    current_cluster: (0, dir_entry.cluster),
                    current_offset: 0,
                    mode,
                    entry: dir_entry,
                    dirty: false,
                };
                let _ = file.seek_from_end(0);
                proof {
                    lemma_push_new_file(old(self)@, file);
                }
                match push_within(&mut self.open_files, MAX_FILES, file) {
                    Ok(()) => Ok(OpenStep::Opened(file_id)),
                    Err(_) => Err(Error::TooManyOpenFiles),
                }
            },
            Mode::ReadWriteTruncate => {
                let mut file = FileInfo {
                    file_id,
                    current_cluster: (0, dir_entry.cluster),
                    current_offset: 0,
                    mode,
                    entry: dir_entry,
                    dirty: false,
                };
                file.update_length(0);
                file.entry.mtime = now;
                Ok(OpenStep::Truncate(file))
            },
            _ => Err(Error::Unsupported),
        }
    }

    /// Opens the file `name` in `directory` in `mode`.
    ///
    /// `found` is the outcome of searching the directory for the name (it
    /// is not looked at when `name` is an error). Fails with
    /// `TooManyOpenFiles` when the table is full, `BadHandle` when the
    /// directory is not open, `FilenameError` when the name is not a valid
    /// short name, `FileNotFound` when the search failed and the mode does
    /// not create, `FileAlreadyOpen` when the entry's file is open,
    /// `FileAlreadyExists` when the mode only creates, `ReadOnly` when a
    /// read-only entry is opened for writing and `OpenedDirAsFile` when the
    /// entry is a directory. A file opened to append starts at its end.
    pub fn open_file_in_dir<E>(
        &mut self,
        directory: Directory,
        name: Result<ShortFileName, FilenameError>,
        mode: Mode,
        found: Result<DirEntry, Error<E>>,
        now: Timestamp,
    ) -> (r: Result<OpenStep, Error<E>>)
        requires
            old(self).wf(),
        ensures
            final(self).wf(),
            r == open_file_outcome(old(self)@, directory, name, mode, found, now).0,
            final(self)@ == open_file_outcome(old(self)@, directory, name, mode, found, now).1,
    {
        if self.open_files.len() == MAX_FILES {
            return Err(Error::TooManyOpenFiles);
        }
        let directory_idx: usize = self.get_dir_by_id(directory)?;
        let directory_info = self.open_dirs[directory_idx];
        let sfn = match name {
            Ok(sfn) => sfn,
            Err(e) => return Err(Error::FilenameError(e)),
        };
        let dir_entry = match found {
            Ok(entry) => entry,
            Err(_) => {
                if mode == Mode::ReadWriteCreate || mode == Mode::ReadWriteCreateOrTruncate || mode
                    == Mode::ReadWriteCreateOrAppend {
                    return Ok(OpenStep::Create(directory_info, sfn));
                } else {
                    return Err(Error::FileNotFound);
                }
            },
        };
        if self.file_is_open(&dir_entry) {
            return Err(Error::FileAlreadyOpen);
        }
        let mode = solve_mode_variant(mode, true);
        if mode == Mode::ReadWriteCreate {
            return Err(Error::FileAlreadyExists);
        }
        self.open_dir_entry(dir_entry, mode, now)
    }

    /// Records the file whose new entry the caller wrote after
    /// `open_file_in_dir` asked for it, and hands out its handle.
    pub fn finish_create(&mut self, entry: DirEntry) -> (file_id: File)
        requires
            old(self).wf(),
            old(self)@.files.len() < old(self)@.file_limit,
        ensures
            final(self).wf(),
            file_id == File(SearchId(old(self)@.next_id)),
            final(self)@ == (VolumeManagerView {
                files: old(self)@.files.push(
                    fresh_file(old(self)@.next_id, entry, Mode::ReadWriteCreate),
                ),
                ..issued_one(old(self)@)
            }),
    {
        let file_id = File(self.id_generator.get());
        let file = FileInfo {
            file_id,
            current_cluster: (0, entry.cluster),
            current_offset: 0,
            mode: Mode::ReadWriteCreate,
            entry,
            dirty: false,
        };
        proof {
            lemma_issue_one(old(self)@);
            lemma_push_new_file(old(self)@, file);
        }
        let _ = push_within(&mut self.open_files, MAX_FILES, file);
        file_id
    }

    /// Records the file that `open_file_in_dir` handed out to be emptied,
    /// once the caller emptied it and wrote its entry back.
    pub fn finish_open(&mut self, file: FileInfo) -> (file_id: File)
        requires
            old(self).wf(),
            old(self)@.files.len() < old(self)@.file_limit,
            was_issued(old(self)@.first_id, old(self)@.issued, file.file_id.0.0),
            old(self)@.issued <= id_space() ==> !has_file(old(self)@.files, file.file_id),
            file.current_offset <= file.entry.size,
            file.current_cluster.0 <= file.current_offset,
        ensures
            final(self).wf(),
            file_id == file.file_id,
            final(self)@ == (VolumeManagerView { files: old(self)@.files.push(file), ..old(self)@ }),
    {
        proof {
            lemma_push_issued_file(old(self)@, file);
        }
        let _ = push_within(&mut self.open_files, MAX_FILES, file);
        file.file_id
    }

    /// The entry of the open file `file` that must be written back to the
    /// volume before it is closed: its entry when it was written to, and
    /// nothing otherwise. Fails with `BadHandle` when it is not open.
    pub fn entry_to_write_back<E>(&self, file: File) -> (r: Result<Option<DirEntry>, Error<E>>)
        requires
            self.wf(),
        ensures
            if has_file(self@.files, file) {
                r == Ok::<Option<DirEntry>, Error<E>>(write_back_entry(file_of(self@.files, file)))
            } else {
                r == Err::<Option<DirEntry>, Error<E>>(Error::BadHandle)
            },
    {
        let file_idx: usize = self.get_file_by_id(file)?;
        let file_info = self.open_files[file_idx];
        if file_info.dirty {
            Ok(Some(file_info.entry))
        } else {
            Ok(None)
        }
    }

    /// Closes a file. `written_back` is the outcome of writing its entry
    /// back (see `entry_to_write_back`); when the file was written to and
    /// that failed, the file stays open and the error is returned. Fails
    /// with `BadHandle` when the file is not open.
    pub fn close_file<E>(&mut self, file: File, written_back: Result<(), Error<E>>) -> (r: Result<
        (),
        Error<E>,
    >)
        requires
            old(self).wf(),
        ensures
            final(self).wf(),
            if !has_file(old(self)@.files, file) {
                r == Err::<(), Error<E>>(Error::BadHandle) && final(self)@ == old(self)@
            } else if file_of(old(self)@.files, file).dirty && written_back is Err {
                r == written_back && final(self)@ == old(self)@
            } else {
                r is Ok && final(self)@ == (VolumeManagerView {
                    files: swap_removed(old(self)@.files, file_index(old(self)@.files, file)),
                    ..old(self)@
                })
            },
    {
        let file_idx: usize = self.get_file_by_id(file)?;
        let file_info = self.open_files[file_idx];
        if file_info.dirty {
            match written_back {
                Ok(()) => {},
                Err(e) => return Err(e),
            }
        }
        proof {
            lemma_remove_file(old(self)@, file_idx as int);
        }
        self.open_files.swap_remove(file_idx);
        Ok(())
    }

    /// Whether the position of `file` is at its end.
    pub fn file_eof<E>(&self, file: File) -> (r: Result<bool, Error<E>>)
        requires
            self.wf(),
        ensures
            if has_file(self@.files, file) {
                r == Ok::<bool, Error<E>>(
                    file_of(self@.files, file).current_offset == file_of(self@.files, file).entry.size,
                )
            } else {
                r == Err::<bool, Error<E>>(Error::BadHandle)
            },
    {
        let file_idx: usize = self.get_file_by_id(file)?;
        Ok(self.open_files[file_idx].eof())
    }

    /// Moves `file` to `offset` bytes from its start. Fails with
    /// `InvalidOffset`, changing nothing, past the end, and with `BadHandle`
    /// when the file is not open.
    pub fn file_seek_from_start<E>(&mut self, file: File, offset: u32) -> (r: Result<(), Error<E>>)
        requires
            old(self).wf(),
        ensures
            final(self).wf(),
            if !has_file(old(self)@.files, file) {
                r == Err::<(), Error<E>>(Error::BadHandle) && final(self)@ == old(self)@
            } else if offset > file_of(old(self)@.files, file).entry.size {
                r == Err::<(), Error<E>>(Error::InvalidOffset) && final(self)@ == old(self)@
            } else {
                r is Ok && final(self)@ == with_file(
                    old(self)@,
                    file,
                    moved_to(file_of(old(self)@.files, file), offset),
                )
            },
    {
        let file_idx: usize = self.get_file_by_id(file)?;
        let mut info = self.open_files[file_idx];
        match info.seek_from_start(offset) {
            Ok(()) => {},
            Err(()) => return Err(Error::InvalidOffset),
        }
        self.replace_file(file_idx, info);
        Ok(())
    }

    /// Moves `file` by `offset` bytes from its position. Fails with
    /// `InvalidOffset`, changing nothing, outside the file, and with
    /// `BadHandle` when the file is not open.
    pub fn file_seek_from_current<E>(&mut self, file: File, offset: i32) -> (r: Result<(), Error<E>>)
        requires
            old(self).wf(),
        ensures
            final(self).wf(),
            if !has_file(old(self)@.files, file) {
                r == Err::<(), Error<E>>(Error::BadHandle) && final(self)@ == old(self)@
            } else if !(0 <= file_of(old(self)@.files, file).current_offset + offset <= file_of(
                old(self)@.files,
                file,
            ).entry.size) {
                r == Err::<(), Error<E>>(Error::InvalidOffset) && final(self)@ == old(self)@
            } else {
                r is Ok && final(self)@ == with_file(
                    old(self)@,
                    file,
                    moved_to(
                        file_of(old(self)@.files, file),
                        (file_of(old(self)@.files, file).current_offset + offset) as u32,
                    ),
                )
            },
    {
        let file_idx: usize = self.get_file_by_id(file)?;
        let mut info = self.open_files[file_idx];
        match info.seek_from_current(offset) {
            Ok(()) => {},
            Err(()) => return Err(Error::InvalidOffset),
        }
        self.replace_file(file_idx, info);
        Ok(())
    }

    /// Moves `file` to `offset` bytes before its end. Fails with
    /// `InvalidOffset`, changing nothing, before the start, and with
    /// `BadHandle` when the file is not open.
    pub fn file_seek_from_end<E>(&mut self, file: File, offset: u32) -> (r: Result<(), Error<E>>)
        requires
            old(self).wf(),
        ensures
            final(self).wf(),
            if !has_file(old(self)@.files, file) {
                r == Err::<(), Error<E>>(Error::BadHandle) && final(self)@ == old(self)@
            } else if offset > file_of(old(self)@.files, file).entry.size {
                r == Err::<(), Error<E>>(Error::InvalidOffset) && final(self)@ == old(self)@
            } else {
                r is Ok && final(self)@ == with_file(
                    old(self)@,
                    file,
                    moved_to(
                        file_of(old(self)@.files, file),
                        (file_of(old(self)@.files, file).entry.size - offset) as u32,
                    ),
                )
            },
    {
        let file_idx: usize = self.get_file_by_id(file)?;
        let mut info = self.open_files[file_idx];
        match info.seek_from_end(offset) {
            Ok(()) => {},
            Err(()) => return Err(Error::InvalidOffset),
        }
        self.replace_file(file_idx, info);
        Ok(())
    }

    /// The length of `file` in bytes.
    pub fn file_length<E>(&self, file: File) -> (r: Result<u32, Error<E>>)
        requires
            self.wf(),
        ensures
            if has_file(self@.files, file) {
                r == Ok::<u32, Error<E>>(file_of(self@.files, file).entry.size)
            } else {
                r == Err::<u32, Error<E>>(Error::BadHandle)
            },
    {
        let file_idx: usize = self.get_file_by_id(file)?;
        Ok(self.open_files[file_idx].length())
    }

    /// The position of `file`, in bytes from its start.
    pub fn file_offset<E>(&self, file: File) -> (r: Result<u32, Error<E>>)
        requires
            self.wf(),
        ensures
            if has_file(self@.files, file) {
                r == Ok::<u32, Error<E>>(file_of(self@.files, file).current_offset)
            } else {
                r == Err::<u32, Error<E>>(Error::BadHandle)
            },
    {
        let file_idx: usize = self.get_file_by_id(file)?;
        Ok(self.open_files[file_idx].current_offset)
    }

    /// Replaces the open file at position `idx` with `info`, which keeps
    /// its handle.
    fn replace_file(&mut self, idx: usize, info: FileInfo)
        requires
            old(self).wf(),
            idx < old(self)@.files.len(),
            info.file_id == old(self)@.files[idx as int].file_id,
            info.current_offset <= info.entry.size,
            info.current_cluster.0 <= info.current_offset,
        ensures
            final(self).wf(),
            final(self)@ == (VolumeManagerView {
                files: old(self)@.files.update(idx as int, info),
                ..old(self)@
            }),
    {
        proof {
            lemma_set_file(old(self)@, idx as int, info);
        }
        self.open_files.set(idx, info);
    }

    /// Whether the file that the search of `directory` for a name found may
    /// be deleted; `found` is the outcome of that search (or the error met
    /// turning the name into a short file name). Fails with `BadHandle` when
    /// the directory is not open, the search's error when it failed,
    /// `DeleteDirAsFile` when the entry is a directory and `FileAlreadyOpen`
    /// when its file is open. The caller deletes the entry when this
    /// succeeds.
    pub fn delete_file_in_dir<E>(&self, directory: Directory, found: Result<DirEntry, Error<E>>) -> (r:
        Result<(), Error<E>>)
        requires
            self.wf(),
        ensures
            if !has_dir(self@.dirs, directory) {
                r == Err::<(), Error<E>>(Error::BadHandle)
            } else {
                match found {
                    Err(e) => r == Err::<(), Error<E>>(e),
                    Ok(entry) => if is_dir_entry(entry) {
                        r == Err::<(), Error<E>>(Error::DeleteDirAsFile)
                    } else if entry_is_open(self@.files, entry) {
                        r == Err::<(), Error<E>>(Error::FileAlreadyOpen)
                    } else {
                        r is Ok
                    },
                }
            },
    {
        let _dir_idx: usize = self.get_dir_by_id(directory)?;
        let dir_entry = match found {
            Ok(entry) => entry,
            Err(e) => return Err(e),
        };
        if dir_entry.attributes.is_directory() {
            return Err(Error::DeleteDirAsFile);
        }
        if self.file_is_open(&dir_entry) {
            return Err(Error::FileAlreadyOpen);
        }
        Ok(())
    }

    /// The cluster of `file` from which the walk of its cluster chain to
    /// its position starts (with the offset at which that cluster starts),
    /// and its position. The cluster starts at or before the position.
    pub fn file_position<E>(&self, file: File) -> (r: Result<((u32, ClusterId), u32), Error<E>>)
        requires
            self.wf(),
        ensures
            if has_file(self@.files, file) {
                r == Ok::<((u32, ClusterId), u32), Error<E>>(
                    (
                        file_of(self@.files, file).current_cluster,
                        file_of(self@.files, file).current_offset,
                    ),
                )
            } else {
                r == Err::<((u32, ClusterId), u32), Error<E>>(Error::BadHandle)
            },
            r matches Ok(p) ==> p.0.0 <= p.1,
    {
        let file_idx: usize = self.get_file_by_id(file)?;
        let info = self.open_files[file_idx];
        Ok((info.current_cluster, info.current_offset))
    }

    /// Records the cluster (and the offset at which it starts) that the
    /// walk of the cluster chain reached for `file`; the walk never passes
    /// the file's position, so the cluster starts at or before it.
    pub fn set_current_cluster<E>(&mut self, file: File, cluster: (u32, ClusterId)) -> (r: Result<
        (),
        Error<E>,
    >)
        requires
            old(self).wf(),
            has_file(old(self)@.files, file) ==> cluster.0 <= file_of(
                old(self)@.files,
                file,
            ).current_offset,
        ensures
            final(self).wf(),
            if has_file(old(self)@.files, file) {
                r is Ok && final(self)@ == with_file(
                    old(self)@,
                    file,
                    FileInfo { current_cluster: cluster, ..file_of(old(self)@.files, file) },
                )
            } else {
                r == Err::<(), Error<E>>(Error::BadHandle) && final(self)@ == old(self)@
            },
    {
        let file_idx: usize = self.get_file_by_id(file)?;
        let mut info = self.open_files[file_idx];
        info.current_cluster = cluster;
        self.replace_file(file_idx, info);
        Ok(())
    }

    /// One step of reading `file`: with `space` bytes left in the caller's
    /// buffer and `block_avail` bytes of the current block from the
    /// position on, takes as many bytes as all three of these and the rest
    /// of the file allow, moves the position past them and returns their
    /// number.
    pub fn advance_read<E>(&mut self, file: File, space: usize, block_avail: usize) -> (r: Result<
        usize,
        Error<E>,
    >)
        requires
            old(self).wf(),
            has_file(old(self)@.files, file) ==> 0 < read_chunk(
                block_avail,
                space,
                file_of(old(self)@.files, file),
            ) <= i32::MAX,
        ensures
            final(self).wf(),
            if has_file(old(self)@.files, file) {
                let info = file_of(old(self)@.files, file);
                let n = read_chunk(block_avail, space, info);
                r == Ok::<usize, Error<E>>(n as usize) && final(self)@ == with_file(
                    old(self)@,
                    file,
                    FileInfo { current_offset: (info.current_offset + n) as u32, ..info },
                )
            } else {
                r == Err::<usize, Error<E>>(Error::BadHandle) && final(self)@ == old(self)@
            },
    {
        let file_idx: usize = self.get_file_by_id(file)?;
        let mut info = self.open_files[file_idx];
        proof {
            self.lemma_wf();
        }
        let left: u32 = info.left();
        let mut to_copy: usize = if block_avail < space {
            block_avail
        } else {
            space
        };
        if (left as usize) < to_copy {
            to_copy = left as usize;
        }
        let moved = info.seek_from_current(to_copy as i32);
        proof {
            assert(moved is Ok);
        }
        self.replace_file(file_idx, info);
        Ok(to_copy)
    }

    /// Starts a write to `file`: fails with `ReadOnly` when it was opened
    /// read-only, and otherwise marks its entry as needing to be written
    /// back and tells whether the file still lacks a first cluster (one
    /// must then be allocated and given to `set_first_cluster`).
    pub fn start_write<E>(&mut self, file: File) -> (r: Result<bool, Error<E>>)
        requires
            old(self).wf(),
        ensures
            final(self).wf(),
            if !has_file(old(self)@.files, file) {
                r == Err::<bool, Error<E>>(Error::BadHandle) && final(self)@ == old(self)@
            } else if file_of(old(self)@.files, file).mode == Mode::ReadOnly {
                r == Err::<bool, Error<E>>(Error::ReadOnly) && final(self)@ == old(self)@
            } else {
                r == Ok::<bool, Error<E>>(
                    file_of(old(self)@.files, file).entry.cluster.0 < RESERVED_ENTRIES,
                ) && final(self)@ == with_file(
                    old(self)@,
                    file,
                    started_write(file_of(old(self)@.files, file)),
                )
            },
    {
        let file_idx: usize = self.get_file_by_id(file)?;
        let mut info = self.open_files[file_idx];
        if info.mode == Mode::ReadOnly {
            return Err(Error::ReadOnly);
        }
        info.dirty = true;
        proof {
            self.lemma_wf();
        }
        self.replace_file(file_idx, info);
        Ok(info.entry.cluster.0 < RESERVED_ENTRIES)
    }

    /// Gives `file` the first cluster allocated for it.
    pub fn set_first_cluster<E>(&mut self, file: File, cluster: ClusterId) -> (r: Result<(), Error<E>>)
        requires
            old(self).wf(),
        ensures
            final(self).wf(),
            if has_file(old(self)@.files, file) {
                let info = file_of(old(self)@.files, file);
                r is Ok && final(self)@ == with_file(
                    old(self)@,
                    file,
                    FileInfo { entry: DirEntry { cluster, ..info.entry }, ..info },
                )
            } else {
                r == Err::<(), Error<E>>(Error::BadHandle) && final(self)@ == old(self)@
            },
    {
        let file_idx: usize = self.get_file_by_id(file)?;
        let mut info = self.open_files[file_idx];
        info.entry.cluster = cluster;
        proof {
            self.lemma_wf();
        }
        self.replace_file(file_idx, info);
        Ok(())
    }

    /// How many of `len` bytes a write to `file` takes: as many as fit
    /// before the largest file size. When the file's current cluster comes
    /// before its first one, the position in the chain restarts from the
    /// first cluster.
    pub fn write_limit<E>(&mut self, file: File, len: usize) -> (r: Result<usize, Error<E>>)
        requires
            old(self).wf(),
        ensures
            final(self).wf(),
            if has_file(old(self)@.files, file) {
                let info = file_of(old(self)@.files, file);
                let room = MAX_FILE_SIZE - info.current_offset;
                &&& r == Ok::<usize, Error<E>>(
                    if len < room {
                        len
                    } else {
                        room as usize
                    },
                )
                &&& final(self)@ == if info.current_cluster.1 .0 < info.entry.cluster.0 {
                    with_file(
                        old(self)@,
                        file,
                        FileInfo { current_cluster: (0, info.entry.cluster), ..info },
                    )
                } else {
                    old(self)@
                }
            } else {
                r == Err::<usize, Error<E>>(Error::BadHandle) && final(self)@ == old(self)@
            },
    {
        let file_idx: usize = self.get_file_by_id(file)?;
        let mut info = self.open_files[file_idx];
        proof {
            self.lemma_wf();
        }
        if info.current_cluster.1.0 < info.entry.cluster.0 {
            info.current_cluster = (0, info.entry.cluster);
            self.replace_file(file_idx, info);
        }
        let bytes_until_max: usize = (MAX_FILE_SIZE - info.current_offset) as usize;
        if len < bytes_until_max {
            Ok(len)
        } else {
            Ok(bytes_until_max)
        }
    }

    /// One step of writing `file`, after `to_copy` bytes were written to
    /// the volume in the cluster `cluster`: records that cluster, moves the
    /// position past the bytes and makes the file longer when they reach
    /// past its end.
    pub fn advance_write<E>(&mut self, file: File, cluster: (u32, ClusterId), to_copy: usize) -> (r:
        Result<(), Error<E>>)
        requires
            old(self).wf(),
            has_file(old(self)@.files, file) ==> file_of(old(self)@.files, file).current_offset
                + to_copy <= MAX_FILE_SIZE,
            has_file(old(self)@.files, file) ==> cluster.0 <= file_of(
                old(self)@.files,
                file,
            ).current_offset,
        ensures
            final(self).wf(),
            if has_file(old(self)@.files, file) {
                let info = file_of(old(self)@.files, file);
                let end = (info.current_offset + to_copy) as u32;
                r is Ok && final(self)@ == with_file(
                    old(self)@,
                    file,
                    FileInfo {
                        current_cluster: cluster,
                        current_offset: end,
                        entry: DirEntry {
                            size: if end > info.entry.size {
                                end
                            } else {
                                info.entry.size
                            },
                            ..info.entry
                        },
                        ..info
                    },
                )
            } else {
                r == Err::<(), Error<E>>(Error::BadHandle) && final(self)@ == old(self)@
            },
    {
        let file_idx: usize = self.get_file_by_id(file)?;
        let mut info = self.open_files[file_idx];
        info.current_cluster = cluster;
        let new_offset: u32 = info.current_offset + to_copy as u32;
        if new_offset > info.entry.size {
            info.update_length(new_offset);
        }
        let moved = info.seek_from_start(new_offset);
        proof {
            assert(moved is Ok);
        }
        self.replace_file(file_idx, info);
        Ok(())
    }

    /// Ends a write to `file`: sets the archive bit of its entry and its
    /// modification time to `now`.
    pub fn finish_write<E>(&mut self, file: File, now: Timestamp) -> (r: Result<(), Error<E>>)
        requires
            old(self).wf(),
        ensures
            final(self).wf(),
            if has_file(old(self)@.files, file) {
                let info = file_of(old(self)@.files, file);
                r is Ok && final(self)@ == with_file(old(self)@, file, finished_write(info, now))
            } else {
                r == Err::<(), Error<E>>(Error::BadHandle) && final(self)@ == old(self)@
            },
    {
        let file_idx: usize = self.get_file_by_id(file)?;
        let mut info = self.open_files[file_idx];
        info.entry.attributes.set_archive(true);
        info.entry.mtime = now;
        proof {
            self.lemma_wf();
        }
        self.replace_file(file_idx, info);
        Ok(())
    }

    /// Whether the table of open files has room for one more.
    pub fn can_open_file(&self) -> (b: bool)
        requires
            self.wf(),
        ensures
            b == (self@.files.len() < self@.file_limit),
    {
        self.open_files.len() < MAX_FILES
    }

    /// Whether any directory or file is open.
    pub fn has_open_handles(&self) -> (b: bool)
        requires
            self.wf(),
        ensures
            b == (self@.dirs.len() > 0 || self@.files.len() > 0),
    {
        !(self.open_dirs.is_empty() && self.open_files.is_empty())
    }

    /// The position of the open directory with handle `directory`.
    fn get_dir_by_id<E>(&self, directory: Directory) -> (r: Result<usize, Error<E>>)
        requires
            self.wf(),
        ensures
            match r {
                Ok(i) => has_dir(self@.dirs, directory) && i == dir_index(self@.dirs, directory) && i
                    < self@.dirs.len() && self@.dirs[i as int].directory_id == directory,
                Err(e) => !has_dir(self@.dirs, directory) && e == Error::<E>::BadHandle,
            },
    {
        let dirs = self.open_dirs.as_slice();
        assert(dirs@ == self@.dirs);
        let mut idx: usize = 0;
        while idx < dirs.len()
            invariant
                dirs@ == self@.dirs,
                0 <= idx <= dirs@.len(),
                forall|j: int| 0 <= j < idx ==> #[trigger] dirs@[j].directory_id != directory,
            decreases dirs@.len() - idx,
        {
            if dirs[idx].directory_id == directory {
                proof {
                    let i = dir_index(self@.dirs, directory);
                    assert(has_dir(self@.dirs, directory));
                    assert(i == idx) by {
                        if i < idx {
                        } else if i > idx {
                            assert(self@.dirs[idx as int].directory_id == directory);
                        }
                    }
                }
                return Ok(idx);
            }
            idx = idx + 1;
        }
        Err(Error::BadHandle)
    }

    /// The position of the open file with handle `file`.
    fn get_file_by_id<E>(&self, file: File) -> (r: Result<usize, Error<E>>)
        requires
            self.wf(),
        ensures
            match r {
                Ok(i) => has_file(self@.files, file) && i == file_index(self@.files, file) && i
                    < self@.files.len() && self@.files[i as int].file_id == file,
                Err(e) => !has_file(self@.files, file) && e == Error::<E>::BadHandle,
            },
    {
        let files = self.open_files.as_slice();
        assert(files@ == self@.files);
        let mut idx: usize = 0;
        while idx < files.len()
            invariant
                files@ == self@.files,
                0 <= idx <= files@.len(),
                forall|j: int| 0 <= j < idx ==> #[trigger] files@[j].file_id != file,
            decreases files@.len() - idx,
        {
            if files[idx].file_id == file {
                proof {
                    let i = file_index(self@.files, file);
                    assert(has_file(self@.files, file));
                    assert(i == idx) by {
                        if i < idx {
                        } else if i > idx {
                            assert(self@.files[idx as int].file_id == file);
                        }
                    }
                }
                return Ok(idx);
            }
            idx = idx + 1;
        }
        Err(Error::BadHandle)
    }
}

/// How many clusters the walk of a file's cluster chain steps forward,
/// from the cluster that starts at byte `cluster_start` of the file, to
/// reach the cluster that holds byte `desired_offset`.
pub fn clusters_to_skip(cluster_start: u32, desired_offset: u32, bytes_per_cluster: u32) -> (n: u32)
    requires
        cluster_start <= desired_offset,
        bytes_per_cluster > 0,
    ensures
        n == (desired_offset - cluster_start) / (bytes_per_cluster as int),
{
    (desired_offset - cluster_start) / bytes_per_cluster
}

/// Where byte `desired_offset` of a file lies, given the cluster that holds
/// it starts at byte `cluster_start` of the file and at block `first_block`
/// of the device: its block, its offset within that block, and the bytes of
/// the block from it on.
pub fn block_in_cluster(
    cluster_start: u32,
    first_block: BlockIdx,
    desired_offset: u32,
    bytes_per_cluster: u32,
) -> (r: (BlockIdx, usize, usize))
    requires
        cluster_start <= desired_offset,
        desired_offset - cluster_start < bytes_per_cluster,
        first_block.0 + (desired_offset - cluster_start) / (BLOCK_LEN as int) <= u32::MAX,
    ensures
        r.0.0 == first_block.0 + (desired_offset - cluster_start) / (BLOCK_LEN as int),
        r.1 == desired_offset % BLOCK_LEN,
        r.2 == BLOCK_LEN - desired_offset % BLOCK_LEN,
{
    let offset_from_cluster: u32 = desired_offset - cluster_start;
    let num_blocks: u32 = offset_from_cluster / BLOCK_LEN;
    let block_idx = BlockIdx(first_block.0 + num_blocks);
    let block_offset: usize = (desired_offset % BLOCK_LEN) as usize;
    let available: usize = BLOCK_LEN as usize - block_offset;
    (block_idx, block_offset, available)
}

/// One step of a write: of the `bytes_to_write - written` bytes still to
/// write, as many as the block holds from the position on
/// (`block_avail`), and whether the block must be read first because the
/// position lies inside it (`block_offset` is not zero).
pub fn write_chunk(block_offset: usize, block_avail: usize, bytes_to_write: usize, written: usize) -> (r: (
    usize,
    bool,
))
    requires
        written < bytes_to_write,
    ensures
        r.0 == if block_avail < bytes_to_write - written {
            block_avail as int
        } else {
            bytes_to_write - written
        },
        r.1 == (block_offset != 0),
{
    let remaining: usize = bytes_to_write - written;
    let to_copy: usize = if block_avail < remaining {
        block_avail
    } else {
        remaining
    };
    (to_copy, block_offset != 0)
}

/// What the write loop learned from the volume since its last step.
#[derive(Debug, PartialEq, Eq)]
pub enum WriteEvent<E> {
    /// The loop is at its head.
    Next,
    /// The walk of the cluster chain to the position found this block (its
    /// index, the position's offset in it and the bytes of it from there
    /// on), or failed.
    Looked(Result<(BlockIdx, usize, usize), Error<E>>),
    /// Allocating a cluster after the end of the chain succeeded or not.
    Allocated(bool),
    /// The walk after that allocation found this block, or failed.
    Relooked(Result<(BlockIdx, usize, usize), Error<E>>),
}

/// What the write loop does next.
#[derive(Debug, PartialEq, Eq)]
pub enum WriteAction<E> {
    /// Walk the cluster chain to the position; report with `Looked`.
    LookUp,
    /// Allocate a cluster after the end of the chain; report with
    /// `Allocated`.
    Allocate,
    /// Walk the cluster chain to the position again; report with
    /// `Relooked`.
    LookUpAgain,
    /// Write `to_copy` bytes at `block_offset` of `block`, reading the block
    /// first when `read_first`; then record the step with `advance_write`
    /// and come back with `Next`.
    WriteBlock { block: BlockIdx, block_offset: usize, to_copy: usize, read_first: bool },
    /// Every byte is written: mark the entry with `finish_write` and return
    /// the bytes written.
    Done,
    /// Return this at once, without marking the entry.
    Stop(Result<usize, Error<E>>),
}

/// The step a write that has written `written` of its `bytes_to_write`
/// bytes takes after `event`.
pub open spec fn write_action<E>(written: usize, bytes_to_write: usize, event: WriteEvent<E>) -> WriteAction<E> {
    let block_step = |found: (BlockIdx, usize, usize)|
        if written < bytes_to_write {
            WriteAction::WriteBlock {
                block: found.0,
                block_offset: found.1,
                to_copy: (if found.2 < bytes_to_write - written {
                    found.2 as int
                } else {
                    bytes_to_write - written
                }) as usize,
                read_first: found.1 != 0,
            }
        } else {
            WriteAction::Done
        };
    match event {
        WriteEvent::Next => if written < bytes_to_write {
            WriteAction::LookUp
        } else {
            WriteAction::Done
        },
        WriteEvent::Looked(Ok(found)) => block_step(found),
        WriteEvent::Looked(Err(Error::EndOfFile)) => WriteAction::Allocate,
        WriteEvent::Looked(Err(e)) => WriteAction::Stop(Err(e)),
        WriteEvent::Allocated(true) => WriteAction::LookUpAgain,
        WriteEvent::Allocated(false) => WriteAction::Stop(Ok(written)),
        WriteEvent::Relooked(Ok(found)) => block_step(found),
        WriteEvent::Relooked(Err(_)) => WriteAction::Stop(Err(Error::AllocationError)),
    }
}

/// One step of the loop that writes `bytes_to_write` bytes (the number
/// `write_limit` gave), `written` of which are written: walks the chain
/// while bytes remain, allocates a cluster when the chain ends (and stops,
/// returning the bytes written so far, when that fails), writes as much of
/// the found block as is left to write, and ends when every byte is
/// written.
pub fn write_step<E>(written: usize, bytes_to_write: usize, event: WriteEvent<E>) -> (a: WriteAction<E>)
    ensures
        a == write_action(written, bytes_to_write, event),
{
    match event {
        WriteEvent::Next => if written < bytes_to_write {
            WriteAction::LookUp
        } else {
            WriteAction::Done
        },
        WriteEvent::Looked(Ok(found)) => write_block_step(written, bytes_to_write, found),
        WriteEvent::Looked(Err(Error::EndOfFile)) => WriteAction::Allocate,
        WriteEvent::Looked(Err(e)) => WriteAction::Stop(Err(e)),
        WriteEvent::Allocated(true) => WriteAction::LookUpAgain,
        WriteEvent::Allocated(false) => WriteAction::Stop(Ok(written)),
        WriteEvent::Relooked(Ok(found)) => write_block_step(written, bytes_to_write, found),
        WriteEvent::Relooked(Err(_)) => WriteAction::Stop(Err(Error::AllocationError)),
    }
}

fn write_block_step<E>(written: usize, bytes_to_write: usize, found: (BlockIdx, usize, usize)) -> (a:
    WriteAction<E>)
    ensures
        a == write_action(written, bytes_to_write, WriteEvent::<E>::Looked(Ok(found))),
{
    if written < bytes_to_write {
        let (to_copy, read_first) = write_chunk(found.1, found.2, bytes_to_write, written);
        WriteAction::WriteBlock { block: found.0, block_offset: found.1, to_copy, read_first }
    } else {
        WriteAction::Done
    }
}

/// Whether the read loop goes on: while the caller's buffer has room and
/// the file has bytes left.
pub fn read_continues(space: usize, eof: bool) -> (b: bool)
    ensures
        b == (space > 0 && !eof),
{
    space > 0 && !eof
}

/// The bytes a read or write loop has moved after its steps, where step
/// `i` is offered `avails[i]` bytes by its block and takes as many of them
/// as are left of `total`.
pub open spec fn moved_after(total: nat, avails: Seq<nat>) -> nat
    decreases avails.len(),
{
    if avails.len() == 0 {
        0
    } else {
        let before = moved_after(total, avails.drop_last());
        let rest: nat = if before <= total {
            (total - before) as nat
        } else {
            0
        };
        before + if avails.last() < rest {
            avails.last()
        } else {
            rest
        }
    }
}

/// A read or write loop never moves more bytes than its total, and, as
/// long as every block offers at least one byte, each step moves at least
/// one more until the total is reached: after `total` steps the whole
/// total has been moved. A write of `bytes_to_write` bytes (the total that
/// `write_limit` gives) and a read are such loops (see
/// `law_write_loop_moves_total` and `law_read_loop_moves_total`).
pub proof fn law_steps_add_up(total: nat, avails: Seq<nat>)
    ensures
        moved_after(total, avails) <= total,
        (forall|i: int| 0 <= i < avails.len() ==> #[trigger] avails[i] >= 1) ==> moved_after(
            total,
            avails,
        ) >= if total < avails.len() {
            total
        } else {
            avails.len()
        },
    decreases avails.len(),
{
    if avails.len() > 0 {
        let prefix = avails.drop_last();
        law_steps_add_up(total, prefix);
        if forall|i: int| 0 <= i < avails.len() ==> #[trigger] avails[i] >= 1 {
            assert forall|i: int| 0 <= i < prefix.len() implies #[trigger] prefix[i] >= 1 by {
                assert(prefix[i] == avails[i]);
            }
            assert(avails.last() >= 1);
        }
    }
}

/// The read loop, run from a file's position `info` with room for `space`
/// bytes, moves as `moved_after` says for the total of the smaller of
/// `space` and what the file has left: after its steps have moved `taken`
/// bytes, `read_continues` goes on exactly while `taken` is short of that
/// total, and the next step (`advance_read`, which takes `read_chunk`
/// bytes) moves it as one more step of `moved_after` does.
pub proof fn law_read_loop_moves_total(space: usize, info: FileInfo, avails: Seq<nat>, block_avail: usize)
    requires
        info.current_offset <= info.entry.size,
    ensures
        ({
            let left = info.entry.size - info.current_offset;
            let total: nat = (if space < left {
                space as int
            } else {
                left
            }) as nat;
            let taken = moved_after(total, avails);
            let now = FileInfo { current_offset: (info.current_offset + taken) as u32, ..info };
            &&& taken <= total
            &&& (space - taken > 0 && now.current_offset != now.entry.size) <==> taken < total
            &&& taken + read_chunk(block_avail, (space - taken) as usize, now) == moved_after(
                total,
                avails.push(block_avail as nat),
            )
        }),
{
    let left = info.entry.size - info.current_offset;
    let total: nat = (if space < left {
        space as int
    } else {
        left
    }) as nat;
    law_steps_add_up(total, avails);
    assert(avails.push(block_avail as nat).drop_last() =~= avails);
}

/// The write loop, run for the `bytes_to_write` bytes that `write_limit`
/// gave, moves as `moved_after` says for that total: after its steps have
/// written `written` bytes, `write_step` at the loop's head looks for the
/// next block exactly while `written` is short of the total (and is done
/// once it is not), and the block it then writes moves it as one more step
/// of `moved_after` does. With blocks of at least one byte each, the loop
/// is done after at most `bytes_to_write` blocks (`law_steps_add_up`).
pub proof fn law_write_loop_moves_total<E>(
    bytes_to_write: usize,
    avails: Seq<nat>,
    found: (BlockIdx, usize, usize),
)
    ensures
        ({
            let written = moved_after(bytes_to_write as nat, avails);
            &&& written <= bytes_to_write
            &&& write_action::<E>(written as usize, bytes_to_write, WriteEvent::Next) == if written
                < bytes_to_write {
                WriteAction::<E>::LookUp
            } else {
                WriteAction::<E>::Done
            }
            &&& written < bytes_to_write ==> (write_action::<E>(
                written as usize,
                bytes_to_write,
                WriteEvent::Looked(Ok(found)),
            ) matches WriteAction::WriteBlock { to_copy, .. } && written + to_copy == moved_after(
                bytes_to_write as nat,
                avails.push(found.2 as nat),
            ))
        }),
{
    law_steps_add_up(bytes_to_write as nat, avails);
    assert(avails.push(found.2 as nat).drop_last() =~= avails);
}

/// Handing out an identifier keeps the tables consistent.
proof fn lemma_issue_one(v: VolumeManagerView)
    requires
        tables_ok(v),
    ensures
        tables_ok(issued_one(v)),
{
    let w = issued_one(v);
    crate::filesystem::lemma_nth_search_id_next(v.first_id, v.issued);
    assert forall|i: int| 0 <= i < w.dirs.len() implies was_issued(
        w.first_id,
        w.issued,
        #[trigger] w.dirs[i].directory_id.0.0,
    ) by {
        let k = choose|k: nat| k < v.issued && nth_search_id(v.first_id, k) == v.dirs[i].directory_id.0.0;
        assert(nth_search_id(w.first_id, k) == w.dirs[i].directory_id.0.0);
    }
    assert forall|i: int| 0 <= i < w.files.len() implies was_issued(
        w.first_id,
        w.issued,
        #[trigger] w.files[i].file_id.0.0,
    ) by {
        let k = choose|k: nat| k < v.issued && nth_search_id(v.first_id, k) == v.files[i].file_id.0.0;
        assert(nth_search_id(w.first_id, k) == w.files[i].file_id.0.0);
    }
}

/// An identifier just handed out differs from those handed out before, as
/// long as fewer than `id_space()` were handed out.
proof fn lemma_fresh_id(v: VolumeManagerView, id: u32)
    requires
        was_issued(v.first_id, v.issued, id),
        v.issued + 1 <= id_space(),
    ensures
        id != nth_search_id(v.first_id, v.issued),
{
    let k = choose|k: nat| k < v.issued && nth_search_id(v.first_id, k) == id;
    lemma_nth_search_id_distinct(v.first_id, k, v.issued);
}

/// Handing out an identifier and opening a directory under it, at a
/// cluster no open directory has, keeps the tables consistent.
proof fn lemma_push_dir(v: VolumeManagerView, d: DirectoryInfo)
    requires
        tables_ok(v),
        d.directory_id.0.0 == v.next_id,
        !has_dir_cluster(v.dirs, d.cluster),
        v.dirs.len() < v.dir_limit,
    ensures
        tables_ok(VolumeManagerView { dirs: v.dirs.push(d), ..issued_one(v) }),
{
    lemma_issue_one(v);
    let w = VolumeManagerView { dirs: v.dirs.push(d), ..issued_one(v) };
    crate::filesystem::lemma_nth_search_id_next(v.first_id, v.issued);
    assert(was_issued(w.first_id, w.issued, nth_search_id(v.first_id, v.issued)));
    assert forall|i: int| 0 <= i < w.dirs.len() implies was_issued(
        w.first_id,
        w.issued,
        #[trigger] w.dirs[i].directory_id.0.0,
    ) by {
        if i < v.dirs.len() {
            assert(w.dirs[i] == issued_one(v).dirs[i]);
        }
    }
    if w.issued <= id_space() {
        assert forall|i: int, j: int| 0 <= i < j < w.dirs.len() implies #[trigger] w.dirs[i].directory_id
            != #[trigger] w.dirs[j].directory_id by {
            if j == v.dirs.len() {
                lemma_fresh_id(v, v.dirs[i].directory_id.0.0);
            } else {
                assert(v.dirs[i].directory_id != v.dirs[j].directory_id);
            }
        }
    }
    assert forall|i: int, j: int| 0 <= i < j < w.dirs.len() implies #[trigger] w.dirs[i].cluster
        != #[trigger] w.dirs[j].cluster by {
        if j == v.dirs.len() {
            assert(v.dirs[i].cluster != d.cluster);
        } else {
            assert(v.dirs[i].cluster != v.dirs[j].cluster);
        }
    }
}

/// Opening a file under a handle handed out earlier, that no open file
/// has, keeps the tables consistent.
proof fn lemma_push_issued_file(v: VolumeManagerView, f: FileInfo)
    requires
        tables_ok(v),
        was_issued(v.first_id, v.issued, f.file_id.0.0),
        v.issued <= id_space() ==> !has_file(v.files, f.file_id),
        v.files.len() < v.file_limit,
        f.current_offset <= f.entry.size,
        f.current_cluster.0 <= f.current_offset,
    ensures
        tables_ok(VolumeManagerView { files: v.files.push(f), ..v }),
{
    let w = VolumeManagerView { files: v.files.push(f), ..v };
    assert forall|i: int| 0 <= i < w.files.len() implies was_issued(
        w.first_id,
        w.issued,
        #[trigger] w.files[i].file_id.0.0,
    ) by {
        if i < v.files.len() {
            assert(w.files[i] == v.files[i]);
        }
    }
    if w.issued <= id_space() {
        assert forall|i: int, j: int| 0 <= i < j < w.files.len() implies #[trigger] w.files[i].file_id
            != #[trigger] w.files[j].file_id by {
            if j == v.files.len() {
                assert(v.files[i].file_id != f.file_id);
            } else {
                assert(v.files[i].file_id != v.files[j].file_id);
            }
        }
    }
}

/// Handing out an identifier and opening a file under it keeps the tables
/// consistent.
proof fn lemma_push_new_file(v: VolumeManagerView, f: FileInfo)
    requires
        tables_ok(v),
        f.file_id.0.0 == v.next_id,
        v.files.len() < v.file_limit,
        f.current_offset <= f.entry.size,
        f.current_cluster.0 <= f.current_offset,
    ensures
        tables_ok(VolumeManagerView { files: v.files.push(f), ..issued_one(v) }),
{
    lemma_issue_one(v);
    let u = issued_one(v);
    crate::filesystem::lemma_nth_search_id_next(v.first_id, v.issued);
    assert(nth_search_id(u.first_id, v.issued) == f.file_id.0.0);
    assert(was_issued(u.first_id, u.issued, f.file_id.0.0));
    if u.issued <= id_space() {
        assert forall|i: int| 0 <= i < v.files.len() implies #[trigger] v.files[i].file_id
            != f.file_id by {
            lemma_fresh_id(v, v.files[i].file_id.0.0);
        }
    }
    if u.issued > id_space() {
        let w = VolumeManagerView { files: v.files.push(f), ..u };
        assert forall|i: int| 0 <= i < w.files.len() implies was_issued(
            w.first_id,
            w.issued,
            #[trigger] w.files[i].file_id.0.0,
        ) by {
            if i < v.files.len() {
                assert(w.files[i] == u.files[i]);
            }
        }
    } else {
        assert(!has_file(u.files, f.file_id));
        lemma_push_issued_file(u, f);
    }
}

/// Replacing an open file by one with the same handle keeps the tables
/// consistent.
proof fn lemma_set_file(v: VolumeManagerView, r: int, f: FileInfo)
    requires
        tables_ok(v),
        0 <= r < v.files.len(),
        f.file_id == v.files[r].file_id,
        f.current_offset <= f.entry.size,
        f.current_cluster.0 <= f.current_offset,
    ensures
        tables_ok(VolumeManagerView { files: v.files.update(r, f), ..v }),
{
    let w = VolumeManagerView { files: v.files.update(r, f), ..v };
    assert forall|i: int| 0 <= i < w.files.len() implies #[trigger] w.files[i].file_id
        == v.files[i].file_id by {}
    assert forall|i: int| 0 <= i < w.files.len() implies was_issued(
        w.first_id,
        w.issued,
        #[trigger] w.files[i].file_id.0.0,
    ) by {
        assert(w.files[i].file_id == v.files[i].file_id);
    }
    if w.issued <= id_space() {
        assert forall|i: int, j: int| 0 <= i < j < w.files.len() implies #[trigger] w.files[i].file_id
            != #[trigger] w.files[j].file_id by {
            assert(w.files[i].file_id == v.files[i].file_id);
            assert(w.files[j].file_id == v.files[j].file_id);
        }
    }
}

/// Closing the file at position `r` keeps the tables consistent.
proof fn lemma_remove_file(v: VolumeManagerView, r: int)
    requires
        tables_ok(v),
        0 <= r < v.files.len(),
    ensures
        tables_ok(VolumeManagerView { files: swap_removed(v.files, r), ..v }),
{
    let w = VolumeManagerView { files: swap_removed(v.files, r), ..v };
    let n = v.files.len() - 1;
    assert forall|i: int| 0 <= i < w.files.len() implies was_issued(
        w.first_id,
        w.issued,
        #[trigger] w.files[i].file_id.0.0,
    ) by {
        lemma_swap_removed_index(v.files, r, i);
        let src = if i == r { n } else { i };
        assert(w.files[i] == v.files[src]);
    }
    if w.issued <= id_space() {
        assert forall|i: int, j: int| 0 <= i < j < w.files.len() implies #[trigger] w.files[i].file_id
            != #[trigger] w.files[j].file_id by {
            lemma_swap_removed_index(v.files, r, i);
            lemma_swap_removed_index(v.files, r, j);
            let si = if i == r { n } else { i };
            let sj = if j == r { n } else { j };
            if si < sj {
                assert(v.files[si].file_id != v.files[sj].file_id);
            } else {
                assert(v.files[sj].file_id != v.files[si].file_id);
            }
        }
    }
}

/// Where an entry of a swap-removed sequence came from.
proof fn lemma_swap_removed_index<T>(s: Seq<T>, r: int, i: int)
    requires
        0 <= r < s.len(),
        0 <= i < s.len() - 1,
    ensures
        swap_removed(s, r).len() == s.len() - 1,
        swap_removed(s, r)[i] == s[if i == r {
            s.len() - 1
        } else {
            i
        }],
{
}

/// Closing the directory at position `r` keeps the tables consistent.
proof fn lemma_remove_dir(v: VolumeManagerView, r: int)
    requires
        tables_ok(v),
        0 <= r < v.dirs.len(),
    ensures
        tables_ok(VolumeManagerView { dirs: swap_removed(v.dirs, r), ..v }),
{
    let w = VolumeManagerView { dirs: swap_removed(v.dirs, r), ..v };
    let n = v.dirs.len() - 1;
    assert forall|i: int| 0 <= i < w.dirs.len() implies was_issued(
        w.first_id,
        w.issued,
        #[trigger] w.dirs[i].directory_id.0.0,
    ) by {
        lemma_swap_removed_index(v.dirs, r, i);
        let src = if i == r { n } else { i };
        assert(w.dirs[i] == v.dirs[src]);
    }
    assert forall|i: int, j: int| 0 <= i < j < w.dirs.len() implies #[trigger] w.dirs[i].cluster
        != #[trigger] w.dirs[j].cluster by {
        lemma_swap_removed_index(v.dirs, r, i);
        lemma_swap_removed_index(v.dirs, r, j);
        let si = if i == r { n } else { i };
        let sj = if j == r { n } else { j };
        if si < sj {
            assert(v.dirs[si].cluster != v.dirs[sj].cluster);
        } else {
            assert(v.dirs[sj].cluster != v.dirs[si].cluster);
        }
    }
    if w.issued <= id_space() {
        assert forall|i: int, j: int| 0 <= i < j < w.dirs.len() implies #[trigger] w.dirs[i].directory_id
            != #[trigger] w.dirs[j].directory_id by {
            lemma_swap_removed_index(v.dirs, r, i);
            lemma_swap_removed_index(v.dirs, r, j);
            let si = if i == r { n } else { i };
            let sj = if j == r { n } else { j };
            if si < sj {
                assert(v.dirs[si].directory_id != v.dirs[sj].directory_id);
            } else {
                assert(v.dirs[sj].directory_id != v.dirs[si].directory_id);
            }
        }
    }
}

/// The identifier handed out first is the offset itself.
proof fn lemma_nth_search_id_zero(first: u32)
    ensures
        nth_search_id(first, 0) == first,
{
    vstd::arithmetic::div_mod::lemma_small_mod(first as nat, id_space());
}

/// Identifiers handed out less than `id_space()` apart differ.
proof fn lemma_nth_search_id_distinct(first: u32, k1: nat, k2: nat)
    requires
        k1 < k2 < id_space(),
    ensures
        nth_search_id(first, k1) != nth_search_id(first, k2),
{
    let a = first as int + k1;
    let b = first as int + k2;
    vstd::arithmetic::div_mod::lemma_mod_equivalence(b, a, id_space() as int);
    vstd::arithmetic::div_mod::lemma_small_mod((k2 - k1) as nat, id_space());
    assert(b - a == k2 - k1);
}

/// Resolving a mode twice gives what resolving it once gives.
pub proof fn law_solved_mode_idempotent(mode: Mode, exists: bool)
    ensures
        solved_mode(solved_mode(mode, exists), exists) == solved_mode(mode, exists),
{
}

/// Every state a manager reaches keeps its tables consistent: within
/// capacity, each handle one the manager handed out, no two handles alike
/// while fewer than 2^32 were handed out, no directory open twice, and each
/// file's position within the file.
pub proof fn law_tables_consistent<const MAX_DIRS: usize, const MAX_FILES: usize>(
    vm: &VolumeManager<MAX_DIRS, MAX_FILES>,
)
    requires
        vm.wf(),
    ensures
        tables_ok(vm@),
{
    vm.lemma_wf();
}

/// Once the root directory is open, opening it again fails with
/// `DirAlreadyOpen`: the root cluster is among the open directories.
pub proof fn law_root_dir_opened_once(v: VolumeManagerView)
    requires
        tables_ok(v),
        !has_dir_cluster(v.dirs, root_cluster()),
        v.dirs.len() < v.dir_limit,
    ensures
        has_dir_cluster(
            VolumeManagerView {
                dirs: v.dirs.push(
                    DirectoryInfo {
                        directory_id: Directory(SearchId(v.next_id)),
                        cluster: root_cluster(),
                    },
                ),
                ..issued_one(v)
            }.dirs,
            root_cluster(),
        ),
{
    let d = DirectoryInfo { directory_id: Directory(SearchId(v.next_id)), cluster: root_cluster() };
    let w = v.dirs.push(d);
    assert(w[v.dirs.len() as int].cluster == root_cluster());
    assert(has_dir_cluster(w, root_cluster()));
}

/// A directory that `open_dir` opened is open under the handle it returned,
/// and its cluster is open, so opening the same entry again fails with
/// `DirAlreadyOpen` (or `TooManyOpenDirs` when the table is now full).
pub proof fn law_opened_dir_is_open(v: VolumeManagerView, entry: DirEntry)
    requires
        tables_ok(v),
        v.dirs.len() < v.dir_limit,
    ensures
        ({
            let d = DirectoryInfo { directory_id: Directory(SearchId(v.next_id)), cluster: entry.cluster };
            let w = VolumeManagerView { dirs: v.dirs.push(d), ..issued_one(v) };
            &&& has_dir(w.dirs, d.directory_id)
            &&& has_dir_cluster(w.dirs, entry.cluster)
        }),
{
    let d = DirectoryInfo { directory_id: Directory(SearchId(v.next_id)), cluster: entry.cluster };
    let w = v.dirs.push(d);
    assert(w[v.dirs.len() as int].cluster == entry.cluster);
    assert(w[v.dirs.len() as int].directory_id == d.directory_id);
    assert(has_dir_cluster(w, entry.cluster));
    assert(has_dir(w, d.directory_id));
}

/// After a directory is closed its handle is no longer open, so closing it
/// again fails with `BadHandle` — as long as fewer than 2^32 handles were
/// handed out (after that a handle number can come round again).
pub proof fn law_closed_dir_is_gone(v: VolumeManagerView, d: Directory)
    requires
        tables_ok(v),
        has_dir(v.dirs, d),
        v.issued <= id_space(),
    ensures
        !has_dir(swap_removed(v.dirs, dir_index(v.dirs, d)), d),
{
    let r = dir_index(v.dirs, d);
    let n = v.dirs.len() - 1;
    let w = swap_removed(v.dirs, r);
    assert forall|i: int| 0 <= i < w.len() implies #[trigger] w[i].directory_id != d by {
        lemma_swap_removed_index(v.dirs, r, i);
        let src = if i == r { n } else { i };
        assert(w[i] == v.dirs[src]);
        if src < r {
        } else {
            assert(src != r);
            assert(v.dirs[r].directory_id == d);
            if src < r {
            } else {
                assert(v.dirs[r].directory_id != v.dirs[src].directory_id);
            }
        }
    }
}

/// After a file is closed its handle is no longer open, so closing it again
/// fails with `BadHandle` — as long as fewer than 2^32 handles were handed
/// out.
pub proof fn law_closed_file_is_gone(v: VolumeManagerView, f: File)
    requires
        tables_ok(v),
        has_file(v.files, f),
        v.issued <= id_space(),
    ensures
        !has_file(swap_removed(v.files, file_index(v.files, f)), f),
{
    let r = file_index(v.files, f);
    let n = v.files.len() - 1;
    let w = swap_removed(v.files, r);
    assert forall|i: int| 0 <= i < w.len() implies #[trigger] w[i].file_id != f by {
        lemma_swap_removed_index(v.files, r, i);
        let src = if i == r { n } else { i };
        assert(w[i] == v.files[src]);
        if src >= r {
            assert(src != r);
            assert(v.files[r].file_id != v.files[src].file_id);
        }
    }
}

/// A file can only be opened once: after `open_file_in_dir` opened an
/// existing entry, opening the same entry again fails with
/// `FileAlreadyOpen` (or `TooManyOpenFiles` when the table is now full).
pub proof fn law_file_opened_once<E>(
    v: VolumeManagerView,
    directory: Directory,
    name: Result<ShortFileName, FilenameError>,
    mode: Mode,
    entry: DirEntry,
    now: Timestamp,
    mode2: Mode,
    now2: Timestamp,
)
    requires
        tables_ok(v),
        open_file_outcome::<E>(v, directory, name, mode, Ok(entry), now).0 matches Ok(
            OpenStep::Opened(_),
        ),
    ensures
        ({
            let w = open_file_outcome::<E>(v, directory, name, mode, Ok(entry), now).1;
            let again = open_file_outcome::<E>(w, directory, name, mode2, Ok(entry), now2).0;
            ||| again == Err::<OpenStep, Error<E>>(Error::FileAlreadyOpen)
            ||| again == Err::<OpenStep, Error<E>>(Error::TooManyOpenFiles)
        }),
{
    let w = open_file_outcome::<E>(v, directory, name, mode, Ok(entry), now).1;
    let n = v.files.len() as int;
    assert(w.files[n].entry == entry);
    assert(entry_is_open(w.files, entry));
    assert(w.dirs == v.dirs);
}

/// The modes that create or else append or truncate never refuse an
/// existing entry as already existing.
pub proof fn law_create_or_modes_accept_existing<E>(
    v: VolumeManagerView,
    directory: Directory,
    name: Result<ShortFileName, FilenameError>,
    entry: DirEntry,
    now: Timestamp,
)
    ensures
        open_file_outcome::<E>(v, directory, name, Mode::ReadWriteCreateOrAppend, Ok(entry), now).0
            != Err::<OpenStep, Error<E>>(Error::FileAlreadyExists),
        open_file_outcome::<E>(v, directory, name, Mode::ReadWriteCreateOrTruncate, Ok(entry), now).0
            != Err::<OpenStep, Error<E>>(Error::FileAlreadyExists),
{
}

/// Moving a file to an offset from its start and reading back its position
/// gives that offset; the cluster it remembers then starts at or before it.
pub proof fn law_seek_then_offset(v: VolumeManagerView, f: File, offset: u32)
    requires
        tables_ok(v),
        has_file(v.files, f),
        offset <= file_of(v.files, f).entry.size,
    ensures
        ({
            let w = with_file(v, f, moved_to(file_of(v.files, f), offset));
            &&& has_file(w.files, f)
            &&& file_of(w.files, f).current_offset == offset
            &&& file_of(w.files, f).current_cluster.0 <= offset
            &&& file_of(w.files, f).entry == file_of(v.files, f).entry
        }),
{
    lemma_file_index(v.files, f);
    lemma_with_file_same(v, f, moved_to(file_of(v.files, f), offset));
}

/// Moving a file by `offset` bytes and back by as many returns it to where
/// it was. Forwards and then back, nothing else changes either; backwards
/// and then forwards, the remembered cluster may have gone back to the
/// file's first one.
#[verifier::spinoff_prover]
pub proof fn law_seek_back_undoes(v: VolumeManagerView, f: File, offset: i32)
    requires
        tables_ok(v),
        has_file(v.files, f),
        offset > i32::MIN,
        0 <= file_of(v.files, f).current_offset + offset <= file_of(v.files, f).entry.size,
    ensures
        ({
            let info = file_of(v.files, f);
            let w = with_file(v, f, moved_to(info, (info.current_offset + offset) as u32));
            let back = file_of(w.files, f);
            let u = with_file(w, f, moved_to(back, (back.current_offset + (-offset)) as u32));
            &&& 0 <= back.current_offset + (-offset) <= back.entry.size
            &&& file_of(u.files, f).current_offset == info.current_offset
            &&& file_of(u.files, f).entry == info.entry
            &&& offset >= 0 ==> u == v
            &&& u == v || file_of(u.files, f).current_cluster == (0u32, info.entry.cluster)
        }),
{
    let info = file_of(v.files, f);
    lemma_file_index(v.files, f);
    let moved = moved_to(info, (info.current_offset + offset) as u32);
    lemma_with_file_same(v, f, moved);
    let w = with_file(v, f, moved);
    let again = moved_to(moved, (moved.current_offset + (-offset)) as u32);
    lemma_moved_there_and_back(info, offset);
    lemma_with_file_same(w, f, again);
    lemma_with_file_twice(v, f, moved, again);
}

/// Moving a file's position there and back again.
proof fn lemma_moved_there_and_back(info: FileInfo, offset: i32)
    requires
        info.current_cluster.0 <= info.current_offset,
        info.current_offset <= info.entry.size,
        offset > i32::MIN,
        0 <= info.current_offset + offset <= info.entry.size,
    ensures
        ({
            let moved = moved_to(info, (info.current_offset + offset) as u32);
            let again = moved_to(moved, (moved.current_offset + (-offset)) as u32);
            &&& 0 <= moved.current_offset + (-offset) <= moved.entry.size
            &&& again.current_offset == info.current_offset
            &&& again.entry == info.entry
            &&& again.file_id == info.file_id
            &&& offset >= 0 ==> again == info
            &&& again == info || again.current_cluster == (0u32, info.entry.cluster)
        }),
{
    let moved = moved_to(info, (info.current_offset + offset) as u32);
    let again = moved_to(moved, (moved.current_offset + (-offset)) as u32);
    assert(moved.current_offset == info.current_offset + offset);
    assert(again.current_offset == info.current_offset);
    if again.current_cluster == info.current_cluster {
        assert(again == info);
    } else {
        assert(again.current_cluster == (0u32, info.entry.cluster));
    }
    if offset >= 0 {
        assert(moved.current_cluster == info.current_cluster);
        assert(again.current_cluster == info.current_cluster);
    }
}

/// Replacing a file twice is replacing it once with the second value, and
/// replacing it with what it was leaves the manager as it was.
proof fn lemma_with_file_twice(v: VolumeManagerView, f: File, first: FileInfo, second: FileInfo)
    requires
        has_file(v.files, f),
        first.file_id == f,
    ensures
        with_file(with_file(v, f, first), f, second) == with_file(v, f, second),
        second == file_of(v.files, f) ==> with_file(v, f, second) == v,
{
    lemma_file_index(v.files, f);
    lemma_with_file_same(v, f, first);
    let i = file_index(v.files, f);
    assert(with_file(with_file(v, f, first), f, second).files =~= with_file(v, f, second).files);
    if second == file_of(v.files, f) {
        assert(with_file(v, f, second).files =~= v.files);
    }
}

/// A file written to is written back when it closes, with what the write
/// left: `start_write` marks it, no later step removes the mark, and after
/// `finish_write` at time `now` the entry that `entry_to_write_back` hands
/// out for it carries the file's length (as `file_length` reports it), the
/// archive bit and `now` as its modification time.
pub proof fn law_written_file_is_written_back(v: VolumeManagerView, f: File, now: Timestamp)
    requires
        tables_ok(v),
        has_file(v.files, f),
        file_of(v.files, f).dirty,
    ensures
        ({
            let info = file_of(v.files, f);
            let w = with_file(v, f, finished_write(info, now));
            &&& has_file(w.files, f)
            &&& write_back_entry(file_of(w.files, f)) matches Some(e) && e.size == info.entry.size
                && e.attributes.0 & ATTR_ARCHIVE == ATTR_ARCHIVE && e.mtime == now
                && e.entry_block == info.entry.entry_block && e.entry_offset
                == info.entry.entry_offset && e.name == info.entry.name && e.cluster
                == info.entry.cluster
            &&& file_of(w.files, f).entry.size == info.entry.size
        }),
        forall|i: FileInfo| #[trigger] started_write(i).dirty,
        forall|i: FileInfo, pos: u32| #[trigger] moved_to(i, pos).dirty == i.dirty,
        forall|i: FileInfo, t: Timestamp| #[trigger] finished_write(i, t).dirty == i.dirty,
{
    let info = file_of(v.files, f);
    lemma_file_index(v.files, f);
    lemma_with_file_same(v, f, finished_write(info, now));
    let a = info.entry.attributes.0;
    assert(((a & !ATTR_ARCHIVE) | ATTR_ARCHIVE) & ATTR_ARCHIVE == ATTR_ARCHIVE) by (bit_vector)
        requires
            ATTR_ARCHIVE == 0x20u8,
    ;
}

/// What each step of a write does, whatever the byte counts:
/// - a block found by the walk of the chain, the first time or after a
///   cluster was allocated, is written the same way: at the position's
///   offset in that block, as many bytes as both the block from there on
///   and what is left to write allow (the smaller of the two), reading the
///   block first exactly when the position lies inside it;
/// - the loop's head looks for a block while bytes remain, and is done
///   only when none remain;
/// - the end of the chain leads to an allocation, a successful one to a
///   second walk, and only a failed one stops the write early, returning
///   the bytes written so far;
/// - any other failure of the walk stops the write with that failure, and
///   a failure of the second walk with `AllocationError`.
pub proof fn law_write_step_outcomes<E>(
    written: usize,
    total: usize,
    found: (BlockIdx, usize, usize),
    e: Error<E>,
)
    ensures
        write_action::<E>(written, total, WriteEvent::Relooked(Ok(found))) == write_action::<E>(
            written,
            total,
            WriteEvent::Looked(Ok(found)),
        ),
        written < total ==> (write_action::<E>(written, total, WriteEvent::Looked(Ok(found)))
            matches WriteAction::WriteBlock { block, block_offset, to_copy, read_first }
            && block == found.0 && block_offset == found.1 && to_copy <= found.2 && to_copy
            <= total - written && (to_copy == found.2 || to_copy == total - written)
            && read_first == (found.1 != 0)),
        (write_action::<E>(written, total, WriteEvent::Next) is Done) <==> written >= total,
        (write_action::<E>(written, total, WriteEvent::Next) is LookUp) <==> written < total,
        write_action::<E>(written, total, WriteEvent::Looked(Err(Error::EndOfFile)))
            == WriteAction::<E>::Allocate,
        write_action::<E>(written, total, WriteEvent::Allocated(true))
            == WriteAction::<E>::LookUpAgain,
        write_action::<E>(written, total, WriteEvent::Allocated(false)) == WriteAction::<E>::Stop(
            Ok(written),
        ),
        e != Error::<E>::EndOfFile ==> write_action::<E>(
            written,
            total,
            WriteEvent::Looked(Err(e)),
        ) == WriteAction::<E>::Stop(Err(e)),
        write_action::<E>(written, total, WriteEvent::Relooked(Err(e))) == WriteAction::<E>::Stop(
            Err(Error::AllocationError),
        ),
        forall|ev: WriteEvent<E>|
            #[trigger] write_action::<E>(written, total, ev) matches WriteAction::Stop(Ok(n)) ==> n
                == written && ev == WriteEvent::<E>::Allocated(false),
{
}

/// A file whose entry is marked read-only is never opened for writing: in
/// any mode but `ReadOnly` the open fails and changes nothing, and, once the
/// checks that come first (room in the table, an open directory, a valid
/// name, the file not open already, a mode that does not insist on
/// creating) pass, it fails with `ReadOnly`.
pub proof fn law_read_only_entry_is_never_opened_for_writing<E>(
    v: VolumeManagerView,
    directory: Directory,
    name: Result<ShortFileName, FilenameError>,
    mode: Mode,
    entry: DirEntry,
    now: Timestamp,
)
    requires
        entry.attributes.0 & ATTR_READ_ONLY == ATTR_READ_ONLY,
        mode != Mode::ReadOnly,
    ensures
        open_file_outcome::<E>(v, directory, name, mode, Ok(entry), now).0 is Err,
        open_file_outcome::<E>(v, directory, name, mode, Ok(entry), now).1 == v,
        v.files.len() < v.file_limit && has_dir(v.dirs, directory) && name is Ok
            && !entry_is_open(v.files, entry) && mode != Mode::ReadWriteCreate
            ==> open_file_outcome::<E>(v, directory, name, mode, Ok(entry), now).0 == Err::<
            OpenStep,
            Error<E>,
        >(Error::ReadOnly),
        v.files.len() < v.file_limit ==> open_entry_outcome::<E>(v, entry, mode, now) == (
            Err::<OpenStep, Error<E>>(Error::ReadOnly),
            v,
        ),
{
}

/// Opening an existing file that is not open, is not a directory and may
/// be opened in `mode` (read-only files only for reading), with room in
/// the table, hands out the next handle and:
/// - for reading, opens it at its start;
/// - for appending, opens it at its end;
/// - for truncating, asks for it to be emptied, with length zero and the
///   modification time `now`, at its start, before it is opened.
/// The entry keeps its place on the volume and its first cluster, from
/// which the walk of its chain starts.
pub proof fn law_open_existing_file_outcomes<E>(
    v: VolumeManagerView,
    entry: DirEntry,
    mode: Mode,
    now: Timestamp,
)
    requires
        v.files.len() < v.file_limit,
        entry.attributes.0 & ATTR_DIRECTORY == 0,
        mode == Mode::ReadOnly || entry.attributes.0 & ATTR_READ_ONLY == 0,
        !entry_is_open(v.files, entry),
    ensures
        ({
            let (r, w) = open_entry_outcome::<E>(v, entry, mode, now);
            let id = File(SearchId(v.next_id));
            &&& mode == Mode::ReadOnly || mode == Mode::ReadWriteAppend ==> {
                &&& r == Ok::<OpenStep, Error<E>>(OpenStep::Opened(id))
                &&& w.issued == v.issued + 1
                &&& w.files.len() == v.files.len() + 1
                &&& w.files.drop_last() == v.files
                &&& w.files.last().file_id == id
                &&& w.files.last().entry == entry
                &&& w.files.last().mode == mode
                &&& !w.files.last().dirty
                &&& w.files.last().current_cluster == (0u32, entry.cluster)
                &&& w.files.last().current_offset == if mode == Mode::ReadOnly {
                    0
                } else {
                    entry.size
                }
            }
            &&& mode == Mode::ReadWriteTruncate ==> {
                &&& r matches Ok(OpenStep::Truncate(info)) && info.file_id == id && info.entry.size
                    == 0 && info.entry.mtime == now && info.entry.entry_block == entry.entry_block
                    && info.entry.entry_offset == entry.entry_offset && info.entry.cluster
                    == entry.cluster && info.current_offset == 0 && info.mode == mode
                &&& w.issued == v.issued + 1
                &&& w.files == v.files
            }
        }),
{
    let (r, w) = open_entry_outcome::<E>(v, entry, mode, now);
    let a: u8 = entry.attributes.0;
    assert(a & 0x10u8 != 0x10u8) by (bit_vector)
        requires
            a & 0x10u8 == 0,
    ;
    if mode != Mode::ReadOnly {
        assert(a & 0x01u8 != 0x01u8) by (bit_vector)
            requires
                a & 0x01u8 == 0,
        ;
    }
    if mode == Mode::ReadOnly || mode == Mode::ReadWriteAppend {
        assert(w.files.drop_last() =~= v.files);
    }
}

/// A directory is never opened as a file, nor deleted as one (`is_dir_entry`
/// is what `delete_file_in_dir` refuses): with room in the table, opening an
/// entry whose directory bit is set fails with `OpenedDirAsFile` (or first
/// with `ReadOnly`, when it is also read-only and `mode` would write), and
/// changes nothing.
pub proof fn law_directory_is_never_opened_as_file<E>(
    v: VolumeManagerView,
    entry: DirEntry,
    mode: Mode,
    now: Timestamp,
)
    requires
        entry.attributes.0 & ATTR_DIRECTORY == ATTR_DIRECTORY,
        mode == Mode::ReadOnly || entry.attributes.0 & ATTR_READ_ONLY == 0,
        v.files.len() < v.file_limit,
    ensures
        is_dir_entry(entry),
        open_entry_outcome::<E>(v, entry, mode, now) == (
            Err::<OpenStep, Error<E>>(Error::OpenedDirAsFile),
            v,
        ),
{
    if mode != Mode::ReadOnly {
        let a: u8 = entry.attributes.0;
        assert(a & 0x01u8 != 0x01u8) by (bit_vector)
            requires
                a & 0x01u8 == 0,
        ;
    }
}

/// An entry counts as open exactly when an open file's entry lies at the
/// same place on the volume: the same block and the same offset in it. So
/// an entry in a block, or at an offset, that no open file's entry has is
/// never open, whatever else the two have in common.
pub proof fn law_open_entry_is_found_by_block_and_offset(files: Seq<FileInfo>, e: DirEntry)
    ensures
        entry_is_open(files, e) <==> exists|i: int|
            0 <= i < files.len() && #[trigger] files[i].entry.entry_block == e.entry_block
                && files[i].entry.entry_offset == e.entry_offset,
        (forall|i: int| 0 <= i < files.len() ==> #[trigger] files[i].entry.entry_block
            != e.entry_block) ==> !entry_is_open(files, e),
        (forall|i: int| 0 <= i < files.len() ==> #[trigger] files[i].entry.entry_offset
            != e.entry_offset) ==> !entry_is_open(files, e),
{
}

/// Opening an entry fails with `FileAlreadyOpen` only when an open file's
/// entry lies at the same block and offset, and always does then, once the
/// table has room, the directory is open and the name is valid.
pub proof fn law_already_open_means_same_place<E>(
    v: VolumeManagerView,
    directory: Directory,
    name: Result<ShortFileName, FilenameError>,
    mode: Mode,
    entry: DirEntry,
    now: Timestamp,
)
    ensures
        open_file_outcome::<E>(v, directory, name, mode, Ok(entry), now).0 == Err::<
            OpenStep,
            Error<E>,
        >(Error::FileAlreadyOpen) ==> exists|i: int|
            0 <= i < v.files.len() && #[trigger] v.files[i].entry.entry_block == entry.entry_block
                && v.files[i].entry.entry_offset == entry.entry_offset,
        (v.files.len() < v.file_limit && has_dir(v.dirs, directory) && name is Ok && exists|i: int|
            0 <= i < v.files.len() && #[trigger] v.files[i].entry.entry_block == entry.entry_block
                && v.files[i].entry.entry_offset == entry.entry_offset)
            ==> open_file_outcome::<E>(v, directory, name, mode, Ok(entry), now).0 == Err::<
            OpenStep,
            Error<E>,
        >(Error::FileAlreadyOpen),
{
    let r = open_file_outcome::<E>(v, directory, name, mode, Ok(entry), now).0;
    if r == Err::<OpenStep, Error<E>>(Error::FileAlreadyOpen) {
        if !entry_is_open(v.files, entry) {
            assert(r != Err::<OpenStep, Error<E>>(Error::FileAlreadyOpen));
        }
    }
}

/// What is written back when a file closes is the file's own entry, at the
/// place it was read from, and only when the file was written to.
pub proof fn law_write_back_is_the_files_own_entry(info: FileInfo)
    ensures
        (write_back_entry(info) is Some) <==> info.dirty,
        write_back_entry(info) matches Some(e) ==> e == info.entry && e.entry_block
            == info.entry.entry_block && e.entry_offset == info.entry.entry_offset && e.name
            == info.entry.name && e.cluster == info.entry.cluster && e.size == info.entry.size,
{
}

/// The walk of a file's cluster chain to its position starts from the
/// cluster the file remembers, or from its first cluster when a seek went
/// back before the remembered one: whichever is closer. It starts at or
/// before the position and never takes more steps than a walk from the
/// first cluster.
pub proof fn law_walk_starts_at_best_cluster(v: VolumeManagerView, f: File, bytes_per_cluster: u32)
    requires
        tables_ok(v),
        has_file(v.files, f),
        bytes_per_cluster > 0,
    ensures
        ({
            let info = file_of(v.files, f);
            &&& info.current_cluster.0 <= info.current_offset
            &&& (info.current_offset - info.current_cluster.0) / (bytes_per_cluster as int)
                <= (info.current_offset as int) / (bytes_per_cluster as int)
        }),
{
    lemma_file_index(v.files, f);
    let info = file_of(v.files, f);
    vstd::arithmetic::div_mod::lemma_div_is_ordered(
        info.current_offset - info.current_cluster.0,
        info.current_offset as int,
        bytes_per_cluster as int,
    );
}

/// A file opened to append is at its end.
pub proof fn law_append_starts_at_end<E>(v: VolumeManagerView, entry: DirEntry, now: Timestamp)
    requires
        tables_ok(v),
        open_entry_outcome::<E>(v, entry, Mode::ReadWriteAppend, now).0 is Ok,
    ensures
        ({
            let w = open_entry_outcome::<E>(v, entry, Mode::ReadWriteAppend, now).1;
            let f = File(SearchId(v.next_id));
            &&& has_file(w.files, f)
            &&& w.files.last().file_id == f
            &&& w.files.last().current_offset == w.files.last().entry.size
        }),
{
    let w = open_entry_outcome::<E>(v, entry, Mode::ReadWriteAppend, now).1;
    assert(w.files[v.files.len() as int].file_id == File(SearchId(v.next_id)));
}

/// The first open file with a handle exists when some open file has it.
proof fn lemma_file_index(files: Seq<FileInfo>, f: File)
    requires
        has_file(files, f),
    ensures
        0 <= file_index(files, f) < files.len(),
        files[file_index(files, f)].file_id == f,
        forall|j: int| 0 <= j < file_index(files, f) ==> #[trigger] files[j].file_id != f,
{
    let k = choose|i: int| 0 <= i < files.len() && #[trigger] files[i].file_id == f;
    lemma_first_file(files, f, k);
}

proof fn lemma_first_file(files: Seq<FileInfo>, f: File, k: int)
    requires
        0 <= k < files.len(),
        files[k].file_id == f,
    ensures
        exists|i: int|
            0 <= i <= k && files[i].file_id == f && forall|j: int|
                0 <= j < i ==> #[trigger] files[j].file_id != f,
    decreases k,
{
    if exists|j: int| 0 <= j < k && #[trigger] files[j].file_id == f {
        let j = choose|j: int| 0 <= j < k && #[trigger] files[j].file_id == f;
        lemma_first_file(files, f, j);
    } else {
        assert(forall|j: int| 0 <= j < k ==> #[trigger] files[j].file_id != f);
    }
}

/// Replacing a file by one with the same handle leaves it findable under
/// that handle, at the same position in the table.
proof fn lemma_with_file_same(v: VolumeManagerView, f: File, info: FileInfo)
    requires
        has_file(v.files, f),
        info.file_id == f,
    ensures
        has_file(with_file(v, f, info).files, f),
        file_index(with_file(v, f, info).files, f) == file_index(v.files, f),
        file_of(with_file(v, f, info).files, f) == info,
{
    lemma_file_index(v.files, f);
    let r = file_index(v.files, f);
    let w = with_file(v, f, info);
    assert(w.files[r].file_id == f);
    let r2 = file_index(w.files, f);
    assert forall|j: int| 0 <= j < r implies #[trigger] w.files[j].file_id != f by {
        assert(w.files[j] == v.files[j]);
    }
    if r2 < r {
        assert(w.files[r2] == v.files[r2]);
    } else if r2 > r {
        assert(w.files[r].file_id == f);
    }
}

} // verus!
