# Eazip

A simple yet flexible zip library, with contracts that [Verus](https://github.com/verus-lang/verus) proves.

This crate provides tools to read and write ZIP archives. It aims at being robust and secure against malicious input, and goes out of its way to ensure that the archives it opens are well-formed. It might therefore reject some "technically valid" ZIP files.

## Layout

- `src/` is the library. It works on bytes in memory, and every function in it is verified.
  - `read/` opens archives: `Archive` for bytes in memory, `scanner::Scanner` for a file that is read piece by piece, `stream::ZipArchive` for entries that are read one after the other.
  - `write/` creates archives: `ArchiveWriter` for bytes in memory, `raw::RawArchiveWriter` for the pieces of an archive that is written elsewhere. `layout` says what the bytes of a whole archive are.
  - `types`, `compression`, `utils` and `error` hold what both of them need.
  - `laws/` states and proves what holds of the library as a whole.
- `app/` carries out the reading and writing: files, streams, extraction to a directory.
- `tests/` runs the library.

## What is proved

- No function of the library panics or overflows, whatever bytes it is given.
- An archive that was written reads as the entries that were written, with their names, types, comments and contents. So do modification times, from one second after the UNIX epoch up to the year 60056; others are not written.
- An archive that opens has no absolute, climbing or duplicated paths. Its entries fill the bytes before the central directory, in order and without gaps or overlap, and their local headers agree with the central directory.
- The target of a symlink that is extracted does not leave the root of the archive.

What the checksum, deflate and zstd crates compute is not proved: the doc comments of the functions that call them say what is relied on.

## Example

```rust
let mut writer = eazip::ArchiveWriter::new(Vec::new());
let options = eazip::write::FileOptions::default();
writer.add_file("hello.txt", b"Hello world!\n", &options, false)?;
writer.add_directory("dir/", false)?;
let bytes = writer.finish()?;

let archive = eazip::Archive::new(bytes, false)?;
let content = archive.get_by_name("hello.txt").unwrap().read()?;
```

The last argument tells whether the names have to be ones that Windows allows.
