# duplicate_finder

A desktop duplicate-file finder. It walks folders, finds files with identical
content (by size, then a BLAKE3 digest of both ends of larger files, then a
full BLAKE3 digest), clusters audio and video files of nearly equal duration
into likely-duplicate groups, and prepares the results for display.

## Layout

- `src/` is the library, verified with Verus:
  - `model.rs`: the scan data model, and `remove_paths`, which keeps a scan
    result consistent after files are removed;
  - `grouping.rs`: sorting keys and cutting them into classes of equal keys;
  - `hashing.rs`: which files are worth hashing, matching sample digests, and
    building exact-duplicate groups from full digests;
  - `digest.rs`: incremental BLAKE3 digests through the `blake3` crate;
  - `media.rs`: recognising media files by extension and clustering them by
    duration;
  - `scan.rs`, `scanner.rs`: the bookkeeping around a scan and the decisions
    taken while walking folders;
  - `present.rs`, `calendar.rs`, `numbers.rs`, `text.rs`, `sums.rs`: display
    text for sizes, counts, durations and dates, and their supporting
    arithmetic.
- `tests/` exercises the library.
- `app/` is the Tauri shell: file and process I/O, threads, serde types for
  the frontend, and the commands the frontend invokes.

## Durations and paths

Durations are held as whole microseconds in the library, because its
verified code holds no floating-point numbers; the shell converts ffprobe's
seconds to microseconds (rounded to the nearest) and back. Two consequences
follow. Durations are compared exactly: 1.0 s and 1.1 s at a tolerance of
0.1 s are grouped, whereas comparing the `f64` values (where 1.1 - 1.0 is
slightly more than 0.1) would keep them apart. And a duration is shown
rounded twice, first to the microsecond and then to the millisecond, so a
value within half a microsecond of a half millisecond can show one
millisecond more than rounding the seconds directly.

File names are taken from `std::path::Path::file_name` on the platform the
program runs on, so Windows prefixes and separators are handled as std handles
them; the library verifies what follows: reading the extension off the name and
the choice of kind.
