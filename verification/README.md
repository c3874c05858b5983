# embedded_sdmmc (verified core)

The decision-making core of a FAT volume manager, with its contracts and
laws.

- `src/fat/lfn.rs` gathers long file names from the directory entries that
  precede a short entry (UTF-8 encoding, in-place reversal, checksum match).
- `src/filesystem.rs` holds the plain values the manager works on: short
  names and their checksum, handles, entries, attributes, open files and
  their seeking.
- `src/volume_mgr.rs` keeps the tables of open directories and files and
  decides every open, close, seek, read step and write step; laws about
  them are proved there.
- `src/handles.rs` holds the tables' bounded insertion; how many
  directories and files may be open at once is a parameter of the
  manager's type.
- `app/` performs the reads and writes of the volume that those decisions
  call for, over a trait that stands for the FAT volume.
