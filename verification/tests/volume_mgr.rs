use embedded_sdmmc::filesystem::{
    Attributes, BlockIdx, ClusterId, DirEntry, Directory, Error, File, FilenameError, Mode,
    SearchId, SearchIdGenerator, ShortFileName, Timestamp,
};
use embedded_sdmmc::volume_mgr::{
    block_in_cluster, clusters_to_skip, read_continues, solve_mode_variant, write_chunk, write_step,
    OpenStep, VolumeManager, WriteAction, WriteEvent,
};

type Res<T> = Result<T, Error<u8>>;

fn stamp(minutes: u8) -> Timestamp {
    Timestamp {
        year_since_1970: 48,
        zero_indexed_month: 11,
        zero_indexed_day: 8,
        hours: 19,
        minutes,
        seconds: 0,
    }
}

fn dir_entry(name: &[u8; 11], attributes: u8, cluster: u32, size: u32, block: u32, offset: u32) -> DirEntry {
    DirEntry {
        name: ShortFileName { contents: *name },
        mtime: stamp(22),
        ctime: stamp(22),
        attributes: Attributes(attributes),
        cluster: ClusterId(cluster),
        size,
        entry_block: BlockIdx(block),
        entry_offset: offset,
    }
}

fn readme() -> DirEntry {
    dir_entry(b"README  TXT", 0x20, 3, 258, 100, 0)
}

fn test_dir() -> DirEntry {
    dir_entry(b"TEST       ", 0x10, 5, 0, 100, 64)
}

fn big_file() -> DirEntry {
    dir_entry(b"64MB    DAT", 0x20, 7, 64 * 1024 * 1024, 100, 96)
}

fn locked_file() -> DirEntry {
    dir_entry(b"LOCKED  TXT", 0x01, 9, 10, 101, 0)
}

fn name(n: &[u8; 11]) -> Result<ShortFileName, FilenameError> {
    Ok(ShortFileName { contents: *n })
}

fn opened(r: Res<OpenStep>) -> File {
    match r {
        Ok(OpenStep::Opened(f)) => f,
        other => panic!("expected an open file, got {:?}", other),
    }
}

#[test]
fn solve_mode_variant_resolves_compound_modes() {
    assert_eq!(solve_mode_variant(Mode::ReadWriteCreateOrAppend, true), Mode::ReadWriteAppend);
    assert_eq!(solve_mode_variant(Mode::ReadWriteCreateOrAppend, false), Mode::ReadWriteCreate);
    assert_eq!(solve_mode_variant(Mode::ReadWriteCreateOrTruncate, true), Mode::ReadWriteTruncate);
    assert_eq!(solve_mode_variant(Mode::ReadWriteCreateOrTruncate, false), Mode::ReadWriteCreate);
    assert_eq!(solve_mode_variant(Mode::ReadOnly, false), Mode::ReadOnly);
    assert_eq!(solve_mode_variant(Mode::ReadWriteTruncate, false), Mode::ReadWriteTruncate);
    // resolving twice gives what resolving once gives
    let once = solve_mode_variant(Mode::ReadWriteCreateOrAppend, true);
    assert_eq!(solve_mode_variant(once, true), once);
}

#[test]
fn search_ids_count_up_and_wrap() {
    let mut g = SearchIdGenerator::new(u32::MAX - 1);
    assert_eq!(g.get(), SearchId(u32::MAX - 1));
    assert_eq!(g.get(), SearchId(u32::MAX));
    assert_eq!(g.get(), SearchId(0));
    assert_eq!(g.get(), SearchId(1));
}

#[test]
fn handles_start_at_the_offset() {
    let mut vm = VolumeManager::new();
    assert_eq!(vm.open_root_dir::<u8>(), Ok(Directory(SearchId(5000))));
    let mut vm: VolumeManager<4, 4> = VolumeManager::new_with_limits(0x1000_0000);
    assert_eq!(vm.open_root_dir::<u8>(), Ok(Directory(SearchId(0x1000_0000))));
}

#[test]
fn dirs_open_once_and_close_once() {
    let mut vm = VolumeManager::new();
    let root: Directory = vm.open_root_dir::<u8>().expect("open root dir");
    assert_eq!(vm.open_root_dir::<u8>(), Err(Error::DirAlreadyOpen));
    assert_eq!(vm.open_dir::<u8>(root, Ok(readme())), Err(Error::OpenedFileAsDir));
    let test = vm.open_dir::<u8>(root, Ok(test_dir())).expect("open test dir");
    assert_eq!(vm.open_dir::<u8>(root, Ok(test_dir())), Err(Error::DirAlreadyOpen));
    assert_eq!(vm.close_dir::<u8>(root), Ok(()));
    assert_eq!(vm.close_dir::<u8>(test), Ok(()));
    assert_eq!(vm.close_dir::<u8>(test), Err(Error::BadHandle));
    assert!(!vm.has_open_handles());
}

#[test]
fn too_many_dirs() {
    let mut vm = VolumeManager::new();
    let root = vm.open_root_dir::<u8>().unwrap();
    for cluster in 10..13u32 {
        let mut e = test_dir();
        e.cluster = ClusterId(cluster);
        vm.open_dir::<u8>(root, Ok(e)).unwrap();
    }
    assert_eq!(vm.open_dir::<u8>(root, Ok(test_dir())), Err(Error::TooManyOpenDirs));
    // the full check comes before the handle and the search are looked at
    assert_eq!(
        vm.open_dir::<u8>(Directory(SearchId(1)), Err(Error::DeviceError(7))),
        Err(Error::TooManyOpenDirs)
    );
    assert_eq!(vm.open_root_dir::<u8>(), Err(Error::DirAlreadyOpen));
    vm.close_dir::<u8>(root).unwrap();
    // the root directory's handle number is used up even when the table is full
    let mut e = test_dir();
    e.cluster = ClusterId(20);
    let before = vm.open_dir::<u8>(Directory(SearchId(5001)), Ok(e)).unwrap();
    assert_eq!(before, Directory(SearchId(5004)));
    assert_eq!(vm.open_root_dir::<u8>(), Err(Error::TooManyOpenDirs));
    vm.close_dir::<u8>(before).unwrap();
    assert_eq!(vm.open_root_dir::<u8>(), Ok(Directory(SearchId(5006))));
}

#[test]
fn open_dir_reports_errors_in_order() {
    let mut vm = VolumeManager::new();
    assert_eq!(vm.open_dir::<u8>(Directory(SearchId(5000)), Ok(test_dir())), Err(Error::BadHandle));
    let root = vm.open_root_dir::<u8>().unwrap();
    assert_eq!(vm.open_dir::<u8>(root, Err(Error::FileNotFound)), Err(Error::FileNotFound));
    assert_eq!(
        vm.open_dir::<u8>(root, Err(Error::FilenameError(FilenameError::NameTooLong))),
        Err(Error::FilenameError(FilenameError::NameTooLong))
    );
    assert_eq!(vm.open_dir::<u8>(root, Err(Error::DeviceError(3))), Err(Error::DeviceError(3)));
}

#[test]
fn find_directory_entry_resolves_open_dirs() {
    let mut vm = VolumeManager::new();
    let root = vm.open_root_dir::<u8>().unwrap();
    let info = vm.find_directory_entry::<u8>(root).unwrap();
    assert_eq!(info.directory_id, root);
    assert_eq!(info.cluster, ClusterId(0xFFFF_FFFC));
    vm.close_dir::<u8>(root).unwrap();
    assert_eq!(vm.find_directory_entry::<u8>(root), Err(Error::BadHandle));
}

#[test]
fn files_open_once() {
    let mut vm = VolumeManager::new();
    let root = vm.open_root_dir::<u8>().unwrap();
    let f = opened(vm.open_file_in_dir::<u8>(root, name(b"README  TXT"), Mode::ReadOnly, Ok(readme()), stamp(0)));
    assert_eq!(f, File(SearchId(5001)));
    assert_eq!(
        vm.open_file_in_dir::<u8>(root, name(b"README  TXT"), Mode::ReadOnly, Ok(readme()), stamp(0)),
        Err(Error::FileAlreadyOpen)
    );
    assert_eq!(vm.delete_file_in_dir::<u8>(root, Ok(readme())), Err(Error::FileAlreadyOpen));
    assert_eq!(vm.close_file::<u8>(f, Ok(())), Ok(()));
    assert_eq!(vm.close_file::<u8>(f, Ok(())), Err(Error::BadHandle));
    assert_eq!(vm.delete_file_in_dir::<u8>(root, Ok(readme())), Ok(()));
    assert!(vm.has_open_handles());
}

#[test]
fn open_file_reports_errors() {
    let mut vm = VolumeManager::new();
    assert_eq!(
        vm.open_file_in_dir::<u8>(Directory(SearchId(1)), name(b"README  TXT"), Mode::ReadOnly, Ok(readme()), stamp(0)),
        Err(Error::BadHandle)
    );
    let root = vm.open_root_dir::<u8>().unwrap();
    assert_eq!(
        vm.open_file_in_dir::<u8>(root, Err(FilenameError::InvalidCharacter), Mode::ReadOnly, Ok(readme()), stamp(0)),
        Err(Error::FilenameError(FilenameError::InvalidCharacter))
    );
    assert_eq!(
        vm.open_file_in_dir::<u8>(root, name(b"README  TXS"), Mode::ReadOnly, Err(Error::FileNotFound), stamp(0)),
        Err(Error::FileNotFound)
    );
    assert_eq!(
        vm.open_file_in_dir::<u8>(root, name(b"README  TXS"), Mode::ReadWriteAppend, Err(Error::DeviceError(1)), stamp(0)),
        Err(Error::FileNotFound)
    );
    assert_eq!(
        vm.open_file_in_dir::<u8>(root, name(b"TEST       "), Mode::ReadOnly, Ok(test_dir()), stamp(0)),
        Err(Error::OpenedDirAsFile)
    );
    assert_eq!(
        vm.open_file_in_dir::<u8>(root, name(b"LOCKED  TXT"), Mode::ReadWriteAppend, Ok(locked_file()), stamp(0)),
        Err(Error::ReadOnly)
    );
    assert_eq!(
        vm.open_file_in_dir::<u8>(root, name(b"README  TXT"), Mode::ReadWriteCreate, Ok(readme()), stamp(0)),
        Err(Error::FileAlreadyExists)
    );
    // a read-only entry can be opened for reading
    opened(vm.open_file_in_dir::<u8>(root, name(b"LOCKED  TXT"), Mode::ReadOnly, Ok(locked_file()), stamp(0)));
}

#[test]
fn too_many_files() {
    let mut vm = VolumeManager::new();
    let root = vm.open_root_dir::<u8>().unwrap();
    for i in 0..4u32 {
        let mut e = readme();
        e.entry_offset = 32 * i;
        opened(vm.open_file_in_dir::<u8>(root, name(b"README  TXT"), Mode::ReadOnly, Ok(e), stamp(0)));
    }
    assert_eq!(
        vm.open_file_in_dir::<u8>(root, name(b"64MB    DAT"), Mode::ReadOnly, Ok(big_file()), stamp(0)),
        Err(Error::TooManyOpenFiles)
    );
}

#[test]
fn create_modes_ask_for_a_new_entry() {
    let mut vm = VolumeManager::new();
    let root = vm.open_root_dir::<u8>().unwrap();
    for mode in [Mode::ReadWriteCreate, Mode::ReadWriteCreateOrAppend, Mode::ReadWriteCreateOrTruncate] {
        match vm.open_file_in_dir::<u8>(root, name(b"CREATE  TXT"), mode, Err(Error::FileNotFound), stamp(0)) {
            Ok(OpenStep::Create(dir, n)) => {
                assert_eq!(dir.directory_id, root);
                assert_eq!(n.contents, *b"CREATE  TXT");
            }
            other => panic!("expected a request to create, got {:?}", other),
        }
    }
    let new_entry = dir_entry(b"CREATE  TXT", 0, 0, 0, 102, 0);
    let f = vm.finish_create(new_entry);
    assert_eq!(f, File(SearchId(5001)));
    assert_eq!(vm.file_length::<u8>(f), Ok(0));
    assert_eq!(vm.file_offset::<u8>(f), Ok(0));
}

#[test]
fn append_starts_at_the_end() {
    let mut vm = VolumeManager::new();
    let root = vm.open_root_dir::<u8>().unwrap();
    let f = opened(vm.open_file_in_dir::<u8>(root, name(b"README  TXT"), Mode::ReadWriteCreateOrAppend, Ok(readme()), stamp(0)));
    assert_eq!(vm.file_offset::<u8>(f), Ok(258));
    assert_eq!(vm.file_eof::<u8>(f), Ok(true));
}

#[test]
fn truncate_empties_the_file() {
    let mut vm = VolumeManager::new();
    let root = vm.open_root_dir::<u8>().unwrap();
    let info = match vm.open_file_in_dir::<u8>(root, name(b"64MB    DAT"), Mode::ReadWriteCreateOrTruncate, Ok(big_file()), stamp(45)) {
        Ok(OpenStep::Truncate(info)) => info,
        other => panic!("expected a truncation, got {:?}", other),
    };
    assert_eq!(info.entry.size, 0);
    assert_eq!(info.entry.mtime, stamp(45));
    assert_eq!(info.entry.cluster, ClusterId(7));
    assert_eq!(info.mode, Mode::ReadWriteTruncate);
    // not open until the caller says the truncation is done
    assert_eq!(vm.file_length::<u8>(info.file_id), Err(Error::BadHandle));
    let f = vm.finish_open(info);
    assert_eq!(f, File(SearchId(5001)));
    assert_eq!(vm.file_length::<u8>(f), Ok(0));
}

#[test]
fn seeking_within_a_file() {
    let mut vm = VolumeManager::new();
    let root = vm.open_root_dir::<u8>().unwrap();
    let f = opened(vm.open_file_in_dir::<u8>(root, name(b"README  TXT"), Mode::ReadOnly, Ok(readme()), stamp(0)));
    assert_eq!(vm.file_offset::<u8>(f), Ok(0));
    assert_eq!(vm.file_seek_from_start::<u8>(f, 100), Ok(()));
    assert_eq!(vm.file_offset::<u8>(f), Ok(100));
    assert_eq!(vm.file_seek_from_current::<u8>(f, 58), Ok(()));
    assert_eq!(vm.file_offset::<u8>(f), Ok(158));
    assert_eq!(vm.file_seek_from_current::<u8>(f, -58), Ok(()));
    assert_eq!(vm.file_offset::<u8>(f), Ok(100));
    assert_eq!(vm.file_seek_from_end::<u8>(f, 8), Ok(()));
    assert_eq!(vm.file_offset::<u8>(f), Ok(250));
    assert_eq!(vm.file_eof::<u8>(f), Ok(false));
    assert_eq!(vm.file_seek_from_end::<u8>(f, 0), Ok(()));
    assert_eq!(vm.file_eof::<u8>(f), Ok(true));
    assert_eq!(vm.file_seek_from_start::<u8>(f, 259), Err(Error::InvalidOffset));
    assert_eq!(vm.file_seek_from_end::<u8>(f, 259), Err(Error::InvalidOffset));
    assert_eq!(vm.file_seek_from_current::<u8>(f, 1), Err(Error::InvalidOffset));
    assert_eq!(vm.file_seek_from_current::<u8>(f, -259), Err(Error::InvalidOffset));
    assert_eq!(vm.file_offset::<u8>(f), Ok(258));
    assert_eq!(vm.file_length::<u8>(f), Ok(258));
    let gone = File(SearchId(1));
    assert_eq!(vm.file_seek_from_start::<u8>(gone, 0), Err(Error::BadHandle));
    assert_eq!(vm.file_eof::<u8>(gone), Err(Error::BadHandle));
    assert_eq!(vm.file_offset::<u8>(gone), Err(Error::BadHandle));
}

#[test]
fn reading_steps_through_a_file() {
    let mut vm = VolumeManager::new();
    let root = vm.open_root_dir::<u8>().unwrap();
    let f = opened(vm.open_file_in_dir::<u8>(root, name(b"README  TXT"), Mode::ReadOnly, Ok(readme()), stamp(0)));
    assert_eq!(vm.file_position::<u8>(f), Ok(((0, ClusterId(3)), 0)));
    // the block holds 512 bytes from here, the buffer has room for 100
    assert_eq!(vm.advance_read::<u8>(f, 100, 512), Ok(100));
    assert_eq!(vm.file_offset::<u8>(f), Ok(100));
    // the block ends first
    assert_eq!(vm.advance_read::<u8>(f, 500, 50), Ok(50));
    // the file ends first
    assert_eq!(vm.advance_read::<u8>(f, 500, 512), Ok(108));
    assert_eq!(vm.file_eof::<u8>(f), Ok(true));
    assert_eq!(vm.set_current_cluster::<u8>(f, (0, ClusterId(4))), Ok(()));
    assert_eq!(vm.file_position::<u8>(f), Ok(((0, ClusterId(4)), 258)));
}

#[test]
fn writing_steps_through_a_file() {
    let mut vm = VolumeManager::new();
    let root = vm.open_root_dir::<u8>().unwrap();
    let reader = opened(vm.open_file_in_dir::<u8>(root, name(b"README  TXT"), Mode::ReadOnly, Ok(readme()), stamp(0)));
    assert_eq!(vm.start_write::<u8>(reader), Err(Error::ReadOnly));
    assert_eq!(vm.entry_to_write_back::<u8>(reader), Ok(None));

    let new_entry = dir_entry(b"CREATE  TXT", 0, 0, 0, 102, 0);
    let f = vm.finish_create(new_entry);
    // a new, empty file has no cluster yet
    assert_eq!(vm.start_write::<u8>(f), Ok(true));
    assert_eq!(vm.set_first_cluster::<u8>(f, ClusterId(40)), Ok(()));
    // the position restarts from the first cluster
    assert_eq!(vm.write_limit::<u8>(f, 35), Ok(35));
    assert_eq!(vm.file_position::<u8>(f), Ok(((0, ClusterId(40)), 0)));
    assert_eq!(vm.advance_write::<u8>(f, (0, ClusterId(40)), 35), Ok(()));
    assert_eq!(vm.file_length::<u8>(f), Ok(35));
    assert_eq!(vm.file_offset::<u8>(f), Ok(35));
    // overwriting inside the file does not make it longer
    assert_eq!(vm.file_seek_from_start::<u8>(f, 5), Ok(()));
    assert_eq!(vm.advance_write::<u8>(f, (0, ClusterId(40)), 10), Ok(()));
    assert_eq!(vm.file_length::<u8>(f), Ok(35));
    assert_eq!(vm.file_offset::<u8>(f), Ok(15));
    assert_eq!(vm.finish_write::<u8>(f, stamp(59)), Ok(()));
    match vm.entry_to_write_back::<u8>(f) {
        Ok(Some(entry)) => {
            assert_eq!(entry.size, 35);
            assert_eq!(entry.cluster, ClusterId(40));
            assert_eq!(entry.mtime, stamp(59));
            assert_eq!(entry.attributes, Attributes(0x20));
        }
        other => panic!("expected an entry to write back, got {:?}", other),
    }
    // a failed write-back leaves the file open
    assert_eq!(vm.close_file::<u8>(f, Err(Error::DeviceError(5))), Err(Error::DeviceError(5)));
    assert_eq!(vm.file_length::<u8>(f), Ok(35));
    assert_eq!(vm.close_file::<u8>(f, Ok(())), Ok(()));
    assert_eq!(vm.file_length::<u8>(f), Err(Error::BadHandle));
    // a clean file closes whatever the write-back outcome
    assert_eq!(vm.close_file::<u8>(reader, Err(Error::DeviceError(5))), Ok(()));
}

#[test]
fn write_limit_stops_at_the_largest_file_size() {
    let mut vm = VolumeManager::new();
    let root = vm.open_root_dir::<u8>().unwrap();
    let e = dir_entry(b"HUGE    DAT", 0x20, 50, u32::MAX - 10, 103, 0);
    let f = opened(vm.open_file_in_dir::<u8>(root, name(b"HUGE    DAT"), Mode::ReadWriteAppend, Ok(e), stamp(0)));
    assert_eq!(vm.start_write::<u8>(f), Ok(false));
    assert_eq!(vm.write_limit::<u8>(f, 100), Ok(10));
    assert_eq!(vm.write_limit::<u8>(f, 4), Ok(4));
}

#[test]
fn block_arithmetic() {
    assert_eq!(clusters_to_skip(0, 5000, 2048), 2);
    assert_eq!(clusters_to_skip(4096, 5000, 2048), 0);
    assert_eq!(block_in_cluster(4096, BlockIdx(1000), 5000, 2048), (BlockIdx(1001), 392, 120));
    assert_eq!(block_in_cluster(0, BlockIdx(8), 0, 512), (BlockIdx(8), 0, 512));
}

#[test]
fn open_handles_are_counted_from_dirs_and_files() {
    let mut vm = VolumeManager::new();
    assert!(!vm.has_open_handles());
    let root = vm.open_root_dir::<u8>().unwrap();
    assert!(vm.has_open_handles());
    let f = opened(vm.open_file_in_dir::<u8>(root, name(b"README  TXT"), Mode::ReadOnly, Ok(readme()), stamp(0)));
    vm.close_dir::<u8>(root).unwrap();
    assert!(vm.has_open_handles());
    vm.close_file::<u8>(f, Ok(())).unwrap();
    assert!(!vm.has_open_handles());
}

#[test]
fn attribute_bits() {
    let mut a = Attributes::create_from_fat(0x11);
    assert!(a.is_read_only());
    assert!(a.is_directory());
    a.set_archive(true);
    assert_eq!(a, Attributes(0x31));
    a.set_archive(false);
    assert_eq!(a, Attributes(0x11));
    assert!(!Attributes(0x20).is_directory());
}

#[test]
fn delete_decisions() {
    let mut vm = VolumeManager::new();
    assert_eq!(vm.delete_file_in_dir::<u8>(Directory(SearchId(9)), Ok(readme())), Err(Error::BadHandle));
    let root = vm.open_root_dir::<u8>().unwrap();
    assert_eq!(vm.delete_file_in_dir::<u8>(root, Ok(test_dir())), Err(Error::DeleteDirAsFile));
    assert_eq!(vm.delete_file_in_dir::<u8>(root, Err(Error::FileNotFound)), Err(Error::FileNotFound));
    assert_eq!(
        vm.delete_file_in_dir::<u8>(root, Err(Error::FilenameError(FilenameError::FilenameEmpty))),
        Err(Error::FilenameError(FilenameError::FilenameEmpty))
    );
    assert_eq!(vm.delete_file_in_dir::<u8>(root, Ok(big_file())), Ok(()));
}

#[test]
fn open_too_many_dirs_with_limit_one() {
    let mut vm: VolumeManager<1, 4> = VolumeManager::new_with_limits(0x1000_0000);
    let root = vm.open_root_dir::<u8>().expect("open root dir");
    assert_eq!(vm.open_dir::<u8>(root, Ok(test_dir())), Err(Error::TooManyOpenDirs));
    assert_eq!(vm.close_dir::<u8>(root), Ok(()));
    assert!(vm.open_dir::<u8>(Directory(SearchId(0x1000_0000)), Ok(test_dir())).is_err());
}

#[test]
fn file_limit_is_the_type_parameter() {
    let mut vm: VolumeManager<4, 1> = VolumeManager::new_with_limits(1);
    let root = vm.open_root_dir::<u8>().unwrap();
    assert!(vm.can_open_file());
    let _f = opened(vm.open_file_in_dir::<u8>(root, name(b"README  TXT"), Mode::ReadOnly, Ok(readme()), stamp(0)));
    assert!(!vm.can_open_file());
    assert_eq!(
        vm.open_file_in_dir::<u8>(root, name(b"64MB    DAT"), Mode::ReadOnly, Ok(big_file()), stamp(0)),
        Err(Error::TooManyOpenFiles)
    );
}

#[test]
fn seeking_back_goes_back_to_the_first_cluster() {
    let mut vm = VolumeManager::new();
    let root = vm.open_root_dir::<u8>().unwrap();
    let f = opened(vm.open_file_in_dir::<u8>(root, name(b"64MB    DAT"), Mode::ReadOnly, Ok(big_file()), stamp(0)));
    assert_eq!(vm.file_seek_from_start::<u8>(f, 5000), Ok(()));
    // the walk to byte 5000 reached the cluster that starts at byte 4096
    assert_eq!(vm.set_current_cluster::<u8>(f, (4096, ClusterId(8))), Ok(()));
    // forwards, the remembered cluster stays
    assert_eq!(vm.file_seek_from_current::<u8>(f, 100), Ok(()));
    assert_eq!(vm.file_position::<u8>(f), Ok(((4096, ClusterId(8)), 5100)));
    // back to a byte still in that cluster, it stays too
    assert_eq!(vm.file_seek_from_start::<u8>(f, 4096), Ok(()));
    assert_eq!(vm.file_position::<u8>(f), Ok(((4096, ClusterId(8)), 4096)));
    // before it, the walk starts again from the first cluster
    assert_eq!(vm.file_seek_from_start::<u8>(f, 0), Ok(()));
    assert_eq!(vm.file_position::<u8>(f), Ok(((0, ClusterId(7)), 0)));
    // the same from the end and from the position
    assert_eq!(vm.file_seek_from_start::<u8>(f, 5000), Ok(()));
    assert_eq!(vm.set_current_cluster::<u8>(f, (4096, ClusterId(8))), Ok(()));
    assert_eq!(vm.file_seek_from_end::<u8>(f, 64 * 1024 * 1024 - 10), Ok(()));
    assert_eq!(vm.file_position::<u8>(f), Ok(((0, ClusterId(7)), 10)));
    assert_eq!(vm.file_seek_from_start::<u8>(f, 5000), Ok(()));
    assert_eq!(vm.set_current_cluster::<u8>(f, (4096, ClusterId(8))), Ok(()));
    assert_eq!(vm.file_seek_from_current::<u8>(f, -1000), Ok(()));
    assert_eq!(vm.file_position::<u8>(f), Ok(((0, ClusterId(7)), 4000)));
}

#[test]
fn write_chunk_takes_what_fits() {
    // the block holds fewer bytes than are left to write
    assert_eq!(write_chunk(0, 512, 1000, 0), (512, false));
    // fewer bytes are left than the block holds; the block is read first
    assert_eq!(write_chunk(100, 412, 1000, 900), (100, true));
    assert_eq!(write_chunk(511, 1, 1000, 999), (1, true));
}

#[test]
fn write_step_decides_each_step() {
    let found = (BlockIdx(70), 100usize, 412usize);
    assert_eq!(write_step::<u8>(0, 1000, WriteEvent::Next), WriteAction::LookUp);
    assert_eq!(write_step::<u8>(1000, 1000, WriteEvent::Next), WriteAction::Done);
    assert_eq!(
        write_step::<u8>(0, 1000, WriteEvent::Looked(Ok(found))),
        WriteAction::WriteBlock { block: BlockIdx(70), block_offset: 100, to_copy: 412, read_first: true }
    );
    assert_eq!(
        write_step::<u8>(900, 1000, WriteEvent::Looked(Ok((BlockIdx(71), 0, 512)))),
        WriteAction::WriteBlock { block: BlockIdx(71), block_offset: 0, to_copy: 100, read_first: false }
    );
    // the chain ended: allocate, and stop with what was written when that fails
    assert_eq!(write_step::<u8>(512, 1000, WriteEvent::Looked(Err(Error::EndOfFile))), WriteAction::Allocate);
    assert_eq!(write_step::<u8>(512, 1000, WriteEvent::Allocated(false)), WriteAction::Stop(Ok(512)));
    assert_eq!(write_step::<u8>(512, 1000, WriteEvent::Allocated(true)), WriteAction::LookUpAgain);
    assert_eq!(
        write_step::<u8>(512, 1000, WriteEvent::Relooked(Err(Error::EndOfFile))),
        WriteAction::Stop(Err(Error::AllocationError))
    );
    assert_eq!(
        write_step::<u8>(512, 1000, WriteEvent::Looked(Err(Error::DeviceError(3)))),
        WriteAction::Stop(Err(Error::DeviceError(3)))
    );
}

#[test]
fn write_loop_moves_its_total() {
    // a write of 1300 bytes starting 100 bytes into a block
    let total = 1300usize;
    let mut written = 0usize;
    let mut position = 100usize;
    let mut event = WriteEvent::<u8>::Next;
    let mut blocks = 0;
    loop {
        match write_step(written, total, event) {
            WriteAction::LookUp | WriteAction::LookUpAgain => {
                let offset = position % 512;
                event = WriteEvent::Looked(Ok((BlockIdx((position / 512) as u32), offset, 512 - offset)));
            }
            WriteAction::WriteBlock { to_copy, .. } => {
                written += to_copy;
                position += to_copy;
                blocks += 1;
                event = WriteEvent::Next;
            }
            WriteAction::Done => break,
            other => panic!("unexpected step {:?}", other),
        }
    }
    assert_eq!(written, 1300);
    assert_eq!(blocks, 3);
}

#[test]
fn read_goes_on_while_room_and_bytes_are_left() {
    assert!(read_continues(10, false));
    assert!(!read_continues(0, false));
    assert!(!read_continues(10, true));
}
