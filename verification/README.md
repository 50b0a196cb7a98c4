# Pak Merger

A library that combines Unreal Pak files into one. What only one input holds is
added, what several inputs hold alike is added once, and where they differ a plan
names the conflicts that need a choice. Databases are merged field by field.

The library is written in Verus: the strict reader of Pak files, the comparison,
the plan, the merged databases and the checks of the finished output are verified
against their contracts.

- `src/pak`: footers, indexes, entries and payloads of Pak versions 0 to 11; the
  order in which a version 11 Pak is written, and what is read of it again.
- `src/merge`: requests, base folders, packages, databases and their rows,
  conflicts and choices, the merged output, its report and its verification.
- `src/ordered.rs`, `src/sorting.rs`, `src/text.rs`, `src/lists.rs`,
  `src/digest.rs`: ordered maps, stable sorting, texts, lists and digests.
- `tests`: archives built by hand, single rules, and whole jobs with a small
  database reader.
- `app`: files, threads, the archive codec and the installation of the output. It
  reads databases through the `DatabaseEngine` and recognises games through the
  `ProfileRegistry`, which a program supplies.

Nothing in the library opens a file. An archive comes as its bytes, and what only
another reader, the Oodle runtime or the file system knows comes as a plain value.
