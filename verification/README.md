# MediaSift

MediaSift finds byte-for-byte duplicate media files, helps decide which copies
to keep, organizes photographs by capture date, prefixes media file names with
their date, and makes a mildly cleaned-up copy of a photograph.

The crate is written in Verus. `src/` is the library: its functions carry
contracts that Verus proves, and the laws of the library (what every operation
keeps, what one call undoes) stand there as proof functions. A few small
trusted wrappers in `src/` call outside code whose contracts Verus takes on
trust: chrono's calendar check, UTF-8 decoding, kamadak-exif's EXIF reader,
SHA-256 from sha2, and the channel that brings back the results of background
work. `app/` is the command-line program around it: the file system, opening
folders, the saved-scan database, threads and the floating-point colour
adjustment.

Library modules:

- `text`, `paths`, `media`, `sorting`: strings, path pieces, media kinds and the
  path order that every list is kept in.
- `dates`, `naming`: EXIF capture dates, `Year/Mon` folders, date prefixes and
  the names of new files.
- `hashing`, `groups`, `pathset`, `scanner`, `progress`, `reports`: the
  duplicate scan, its groups and its reports.
- `review`, `keepset`, `actions`: the keep/act choices over the groups and the
  checks made before any file is touched.
- `cache`: the rules of the saved scan and of reusing unchanged hashes.
- `workspace`, `session`: the state rules of the workflow.
- `pixels`: the 3x3 median filter and the blend that photo enhancement uses.
