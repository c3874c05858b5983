//! Plain values that describe names, entries and handles of a FAT volume.

use vstd::prelude::*;

verus! {

/// The checksum step of a long file name entry: rotate the running sum one
/// bit to the right, then add the next byte of the short name (mod 256).
pub open spec fn lfn_checksum_step(sum: u8, byte: u8) -> u8 {
    ((((((sum & 1u8) << 7u8) | ((sum & 0xFEu8) >> 1u8)) as int) + (byte as int)) % 256) as u8
}

/// The checksum that the long file name entries of a short name carry,
/// computed over its bytes in order.
pub open spec fn lfn_checksum_of(bytes: Seq<u8>) -> u8
    decreases bytes.len(),
{
    if bytes.len() == 0 {
        0
    } else {
        lfn_checksum_step(lfn_checksum_of(bytes.drop_last()), bytes.last())
    }
}

/// An 8.3 file name as it is stored in a directory entry: eight bytes of
/// base name and three of extension, padded with spaces.
#[derive(Debug, Copy, Clone, PartialEq, Eq)]
pub struct ShortFileName {
    pub contents: [u8; 11],
}

impl ShortFileName {
    /// The checksum that long file name entries belonging to this name carry.
    pub fn lfn_checksum(&self) -> (sum: u8)
        ensures
            sum == lfn_checksum_of(self.contents@),
    {
        let mut result: u8 = 0;
        let mut i: usize = 0;
        while i < 11
            invariant
                0 <= i <= 11,
                self.contents@.len() == 11,
                result == lfn_checksum_of(self.contents@.take(i as int)),
            decreases 11 - i,
        {
            let rotated: u8 = ((result & 1) << 7) | ((result & 0xFE) >> 1);
            result = rotated.wrapping_add(self.contents[i]);
            assert(self.contents@.take(i + 1).drop_last() =~= self.contents@.take(i as int));
            i = i + 1;
        }
        assert(self.contents@.take(11) =~= self.contents@);
        result
    }
}


/// The checksum of a short name grows one byte at a time: appending `byte`
/// to the bytes rotates the checksum so far one bit to the right (its
/// lowest bit becomes the highest) and adds `byte`, modulo 256. Every byte
/// value counts as itself.
pub proof fn law_lfn_checksum_appends_rotated(bytes: Seq<u8>, byte: u8)
    ensures
        lfn_checksum_of(bytes.push(byte)) as int == (lfn_checksum_of(bytes) as int / 2
            + (lfn_checksum_of(bytes) as int % 2) * 128 + byte as int) % 256,
        lfn_checksum_of(Seq::<u8>::empty()) == 0,
{
    assert(bytes.push(byte).drop_last() =~= bytes);
    let c = lfn_checksum_of(bytes);
    assert((((c & 1u8) << 7u8) | ((c & 0xFEu8) >> 1u8)) as int == c as int / 2 + (c as int % 2)
        * 128) by (bit_vector);
}

proof fn lemma_checksum_step_injective(s1: u8, s2: u8, b1: u8, b2: u8)
    requires
        lfn_checksum_step(s1, b1) == lfn_checksum_step(s2, b2),
    ensures
        s1 == s2 ==> b1 == b2,
        b1 == b2 ==> s1 == s2,
{
    assert((((s1 & 1u8) << 7u8) | ((s1 & 0xFEu8) >> 1u8)) == (((s2 & 1u8) << 7u8) | ((s2 & 0xFEu8)
        >> 1u8)) ==> s1 == s2) by (bit_vector);
}

/// Two short names (or any two byte strings of one length) that differ in
/// exactly one byte have different checksums, so a long name never matches
/// a short name whose bytes differ from its own short name's in one place.
pub proof fn law_lfn_checksum_tells_one_byte_apart(a: Seq<u8>, b: Seq<u8>, k: int)
    requires
        a.len() == b.len(),
        0 <= k < a.len(),
        a[k] != b[k],
        forall|i: int| 0 <= i < a.len() && i != k ==> a[i] == b[i],
    ensures
        lfn_checksum_of(a) != lfn_checksum_of(b),
    decreases a.len(),
{
    let n = a.len() - 1;
    if k == n {
        assert(a.drop_last() =~= b.drop_last());
        if lfn_checksum_of(a) == lfn_checksum_of(b) {
            lemma_checksum_step_injective(
                lfn_checksum_of(a.drop_last()),
                lfn_checksum_of(b.drop_last()),
                a.last(),
                b.last(),
            );
        }
    } else {
        law_lfn_checksum_tells_one_byte_apart(a.drop_last(), b.drop_last(), k);
        if lfn_checksum_of(a) == lfn_checksum_of(b) {
            lemma_checksum_step_injective(
                lfn_checksum_of(a.drop_last()),
                lfn_checksum_of(b.drop_last()),
                a.last(),
                b.last(),
            );
        }
    }
}

/// Identifier handed out for an open directory or file.
#[derive(Debug, Copy, Clone, PartialEq, Eq, Structural)]
pub struct SearchId(pub u32);

/// The identifier that follows `id`: one more, wrapping around to zero.
pub open spec fn next_search_id(id: u32) -> u32 {
    if id == u32::MAX {
        0
    } else {
        (id + 1) as u32
    }
}

/// The `k`-th identifier a generator started at `first` hands out.
pub open spec fn nth_search_id(first: u32, k: nat) -> u32 {
    ((first as nat + k) % 0x1_0000_0000) as u32
}

/// Hands out identifiers one after the other, starting from an offset and
/// wrapping around after `u32::MAX`.
pub struct SearchIdGenerator {
    next_id: u32,
    first: Ghost<u32>,
    issued: Ghost<nat>,
}

impl SearchIdGenerator {
    /// The identifier the next call of `get` hands out.
    pub closed spec fn next(&self) -> u32 {
        self.next_id
    }

    /// The identifier the generator started with.
    pub closed spec fn first(&self) -> u32 {
        self.first@
    }

    /// How many identifiers the generator has handed out.
    pub closed spec fn issued(&self) -> nat {
        self.issued@
    }

    /// The next identifier is the one that follows all those handed out.
    pub closed spec fn wf(&self) -> bool {
        self.next_id == nth_search_id(self.first@, self.issued@)
    }

    /// A generator whose first identifier is `offset`.
    pub fn new(offset: u32) -> (g: Self)
        ensures
            g.wf(),
            g.next() == offset,
            g.first() == offset,
            g.issued() == 0,
    {
        SearchIdGenerator { next_id: offset, first: Ghost(offset), issued: Ghost(0) }
    }

    /// Hands out the next identifier.
    pub fn get(&mut self) -> (id: SearchId)
        requires
            old(self).wf(),
        ensures
            final(self).wf(),
            id.0 == old(self).next(),
            id.0 == nth_search_id(old(self).first(), old(self).issued()),
            final(self).next() == next_search_id(old(self).next()),
            final(self).first() == old(self).first(),
            final(self).issued() == old(self).issued() + 1,
    {
        let id = SearchId(self.next_id);
        proof {
            lemma_nth_search_id_next(self.first@, self.issued@);
        }
        self.next_id = self.next_id.wrapping_add(1);
        self.issued = Ghost(self.issued@ + 1);
        id
    }
}

/// Handing out one more identifier moves to the following one.
pub proof fn lemma_nth_search_id_next(first: u32, k: nat)
    ensures
        nth_search_id(first, k + 1) == next_search_id(nth_search_id(first, k)),
{
    let a = first as nat + k;
    vstd::arithmetic::div_mod::lemma_add_mod_noop(a as int, 1, 0x1_0000_0000);
    if a % 0x1_0000_0000 != 0xFFFF_FFFF {
        vstd::arithmetic::div_mod::lemma_small_mod(((a % 0x1_0000_0000) + 1) as nat, 0x1_0000_0000);
    }
}


/// Handle of an open directory.
#[derive(Debug, Copy, Clone, PartialEq, Eq, Structural)]
pub struct Directory(pub SearchId);

/// Handle of an open file.
#[derive(Debug, Copy, Clone, PartialEq, Eq, Structural)]
pub struct File(pub SearchId);

/// Number of a cluster on the volume.
#[derive(Debug, Copy, Clone, PartialEq, Eq, Structural)]
pub struct ClusterId(pub u32);

/// The cluster number that stands for the root directory.
pub const ROOT_DIR_CLUSTER: u32 = 0xFFFF_FFFC;

/// Cluster numbers below this one do not name a data cluster.
pub const RESERVED_ENTRIES: u32 = 2;

/// Number of a block on the device.
#[derive(Debug, Copy, Clone, PartialEq, Eq, Structural)]
pub struct BlockIdx(pub u32);

/// The attribute byte of a directory entry.
#[derive(Debug, Copy, Clone, PartialEq, Eq, Structural)]
pub struct Attributes(pub u8);

/// Attribute bit of an entry that must not be written.
pub const ATTR_READ_ONLY: u8 = 0x01;
/// Attribute bit of an entry that is a directory.
pub const ATTR_DIRECTORY: u8 = 0x10;
/// Attribute bit of an entry that changed since it was last backed up.
pub const ATTR_ARCHIVE: u8 = 0x20;

impl Attributes {
    /// Attributes read from the attribute byte of an entry.
    pub fn create_from_fat(value: u8) -> (a: Attributes)
        ensures
            a.0 == value,
    {
        Attributes(value)
    }

    /// Whether the read-only bit is set.
    pub fn is_read_only(&self) -> (b: bool)
        ensures
            b == (self.0 & ATTR_READ_ONLY == ATTR_READ_ONLY),
    {
        self.0 & ATTR_READ_ONLY == ATTR_READ_ONLY
    }

    /// Whether the directory bit is set.
    pub fn is_directory(&self) -> (b: bool)
        ensures
            b == (self.0 & ATTR_DIRECTORY == ATTR_DIRECTORY),
    {
        self.0 & ATTR_DIRECTORY == ATTR_DIRECTORY
    }

    /// Sets or clears the archive bit, keeping the others.
    pub fn set_archive(&mut self, value: bool)
        ensures
            final(self).0 == if value {
                (old(self).0 & !ATTR_ARCHIVE) | ATTR_ARCHIVE
            } else {
                old(self).0 & !ATTR_ARCHIVE
            },
    {
        let archive: u8 = if value { ATTR_ARCHIVE } else { 0 };
        self.0 = (self.0 & !ATTR_ARCHIVE) | archive;
        proof {
            let x = old(self).0;
            assert((x & !0x20u8) | 0u8 == x & !0x20u8) by (bit_vector);
        }
    }
}

/// A date and time as a directory entry stores it.
#[derive(Debug, Copy, Clone, PartialEq, Eq, Structural)]
pub struct Timestamp {
    pub year_since_1970: u8,
    pub zero_indexed_month: u8,
    pub zero_indexed_day: u8,
    pub hours: u8,
    pub minutes: u8,
    pub seconds: u8,
}

/// A directory entry as read from the volume, with where it is stored.
#[derive(Debug, Copy, Clone, PartialEq, Eq)]
pub struct DirEntry {
    pub name: ShortFileName,
    pub mtime: Timestamp,
    pub ctime: Timestamp,
    pub attributes: Attributes,
    pub cluster: ClusterId,
    pub size: u32,
    pub entry_block: BlockIdx,
    pub entry_offset: u32,
}

/// The ways a file can be opened.
#[derive(Debug, Copy, Clone, PartialEq, Eq, Structural)]
pub enum Mode {
    ReadOnly,
    ReadWriteAppend,
    ReadWriteTruncate,
    ReadWriteCreate,
    ReadWriteCreateOrTruncate,
    ReadWriteCreateOrAppend,
}

/// Why a name cannot be turned into a short file name.
#[derive(Debug, Copy, Clone, PartialEq, Eq, Structural)]
pub enum FilenameError {
    InvalidCharacter,
    FilenameEmpty,
    NameTooLong,
    MisplacedPeriod,
    Utf8Error,
}

/// An open directory: its handle and its first cluster.
#[derive(Debug, Copy, Clone, PartialEq, Eq, Structural)]
pub struct DirectoryInfo {
    pub directory_id: Directory,
    pub cluster: ClusterId,
}

/// An open file: its handle, position, mode and directory entry.
#[derive(Debug, Copy, Clone, PartialEq, Eq)]
pub struct FileInfo {
    pub file_id: File,
    /// A cluster of the file and the byte offset at which it starts.
    pub current_cluster: (u32, ClusterId),
    pub current_offset: u32,
    pub mode: Mode,
    pub entry: DirEntry,
    /// Whether the entry on disk must be rewritten when the file closes.
    pub dirty: bool,
}

/// `info` moved to byte `pos` of the file. The cluster it remembers goes
/// back to the file's first cluster when `pos` lies before that cluster, so
/// that the walk of the cluster chain to `pos` never has to go backwards.
pub open spec fn moved_to(info: FileInfo, pos: u32) -> FileInfo {
    FileInfo {
        current_offset: pos,
        current_cluster: if pos < info.current_cluster.0 {
            (0, info.entry.cluster)
        } else {
            info.current_cluster
        },
        ..info
    }
}

impl FileInfo {
    /// Moves the position to `pos`, going back to the first cluster when
    /// `pos` lies before the remembered one.
    fn move_to(&mut self, pos: u32)
        ensures
            *final(self) == moved_to(*old(self), pos),
    {
        if pos < self.current_cluster.0 {
            self.current_cluster = (0, self.entry.cluster);
        }
        self.current_offset = pos;
    }

    /// Whether the position is at the end of the file.
    pub fn eof(&self) -> (b: bool)
        ensures
            b == (self.current_offset == self.entry.size),
    {
        self.current_offset == self.entry.size
    }

    /// Bytes between the position and the end of the file.
    pub fn left(&self) -> (n: u32)
        requires
            self.current_offset <= self.entry.size,
        ensures
            n == self.entry.size - self.current_offset,
    {
        self.entry.size - self.current_offset
    }

    /// Length of the file in bytes.
    pub fn length(&self) -> (n: u32)
        ensures
            n == self.entry.size,
    {
        self.entry.size
    }

    /// Moves to `offset` bytes from the start (see `moved_to`); fails,
    /// changing nothing, past the end.
    pub fn seek_from_start(&mut self, offset: u32) -> (r: Result<(), ()>)
        ensures
            r is Ok <==> offset <= old(self).entry.size,
            *final(self) == if r is Ok {
                moved_to(*old(self), offset)
            } else {
                *old(self)
            },
    {
        if offset > self.entry.size {
            return Err(());
        }
        self.move_to(offset);
        Ok(())
    }

    /// Moves to `offset` bytes before the end (see `moved_to`); fails,
    /// changing nothing, before the start.
    pub fn seek_from_end(&mut self, offset: u32) -> (r: Result<(), ()>)
        ensures
            r is Ok <==> offset <= old(self).entry.size,
            *final(self) == if r is Ok {
                moved_to(*old(self), (old(self).entry.size - offset) as u32)
            } else {
                *old(self)
            },
    {
        if offset > self.entry.size {
            return Err(());
        }
        self.move_to(self.entry.size - offset);
        Ok(())
    }

    /// Moves `offset` bytes forwards (or backwards, when negative; see
    /// `moved_to`); fails, changing nothing, outside the file.
    pub fn seek_from_current(&mut self, offset: i32) -> (r: Result<(), ()>)
        ensures
            r is Ok <==> 0 <= old(self).current_offset + offset <= old(self).entry.size,
            *final(self) == if r is Ok {
                moved_to(*old(self), (old(self).current_offset + offset) as u32)
            } else {
                *old(self)
            },
    {
        let new_offset: i64 = self.current_offset as i64 + offset as i64;
        if new_offset < 0 || new_offset > self.entry.size as i64 {
            return Err(());
        }
        self.move_to(new_offset as u32);
        Ok(())
    }

    /// Sets the length of the file.
    pub fn update_length(&mut self, new: u32)
        ensures
            *final(self) == (FileInfo {
                entry: DirEntry { size: new, ..old(self).entry },
                ..*old(self)
            }),
    {
        self.entry.size = new;
    }
}

/// Errors of the volume manager; `E` is the block device's own error.
#[derive(Debug, PartialEq, Eq)]
pub enum Error<E> {
    DeviceError(E),
    FilenameError(FilenameError),
    TooManyOpenDirs,
    TooManyOpenFiles,
    BadHandle,
    FileNotFound,
    FileAlreadyOpen,
    DirAlreadyOpen,
    OpenedDirAsFile,
    OpenedFileAsDir,
    DeleteDirAsFile,
    Unsupported,
    EndOfFile,
    ConversionError,
    AllocationError,
    ReadOnly,
    FileAlreadyExists,
    InvalidOffset,
}

} // verus!
