# littlefs_rust

A little fail-safe filesystem for microcontroller flash, written in Verus:
its on-disk encodings, the caches in front of the block device, the block
allocator, the skip-lists that hold file data, writing and flushing open
files, and the appending of attributes to (and lookups in) the metadata log
of a directory block are proved against their specifications. Fetching a
metadata pair, compacting it, the commit chain above single attributes,
traversal of the whole filesystem, mounting and renaming are not part of
the library: the block-allocating functions take the set of blocks in use
from their caller.

Layout:

- `src/defines.rs` — constants, error codes, types and the on-disk records.
- `src/util.rs` — bit counting, alignment, the checksum, byte orders.
- `src/tag.rs`, `src/pair.rs` — metadata tags, block pairs and global state.
- `src/bd.rs` — the block-device trait, an in-memory device, and the
  read/program caches (`lfs_bd_read`, `lfs_bd_prog`, flush, sync, compare,
  checksum).
- `src/fs.rs` — the filesystem instance: set-up, global-state updates,
  mount checks, cycle detection.
- `src/allocator.rs` — the lookahead allocator.
- `src/ctz.rs` — file skip-lists: index arithmetic, search, extension.
- `src/commit.rs`, `src/mdir.rs` — writing to and looking up in the
  metadata log of a directory block (programming attributes and checksums,
  lookups), and the size and relocation decisions compaction makes.
- `src/file.rs` — open files: reading from a skip-list or from inline
  data through the file's cache, moving a file's bytes to a new block.
- `src/write.rs` — writing open files: appending to a skip-list a block
  at a time or to inline data, replacing blocks the device finds bad.
- `src/flush.rs` — flushing open files: committing what a write left
  pending, copying the rest of the old list after it.
- `src/fileops.rs` — the user-level file operations: write (with append
  and zero fill), read, seek and rewind.
- `src/path.rs` — path names.
- `src/lfs1.rs` — records of the first on-disk format, for migration.
- `src/cache1.rs` — the read and program caches of the first version and
  the search of its skip-lists.
- `app/` — loading and storing device images on the host.
- `tests/` — tests of the library on concrete values.
