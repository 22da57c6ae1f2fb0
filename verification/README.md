# quicksearch_core

The core of a local file search: which files are indexed, what text they hold,
how rows reach the index, and how rows on screen follow the disk. The library is
written in Verus: the functions of `src/` carry contracts, and Verus proves them
from the contracts of the wrappers around other crates, which it takes as given.

## Layout

- `src/parts.rs`, `src/paths.rs`, `src/records.rs`: a path's components on either
  kind of platform, stored spellings, the walk's rules, a file's row and the
  decision about its content.
- `src/extract/`: searchable text out of plain text, RTF, office documents (zip
  containers and the older compound files), PDF, audio tags and image properties.
- `src/batch.rs`, `src/fts.rs`, `src/counting.rs`: transactions row by row, merge
  settings, and counting a tree for a progress bar.
- `src/incremental.rs`, `src/live.rs`: watcher events, and the rows on screen.
- `src/indexing/`: the run itself: per-root pipelines, the writer's rounds, the
  status, the configuration record, the progress.
- `src/text.rs`, `src/bytes.rs`, `src/keyed.rs`, `src/log.rs`, `src/config.rs`:
  what the rest stands on.
- `tests/`: ordinary tests of the library.
- `app/`: files, processes, threads, the database and the clock around it.

## How to read it

Work that waits on the machine is a state machine: a `next`-like method says what
to do, the caller does it and reports back. Each such method is specified by a
spec function of the same meaning, and the laws, which are public proof functions
with a sentence above them, are stated over those spec functions.

Calls into other crates stand behind small wrappers marked `external_body`. Each
says in its comment which function it calls and what is taken of it without
proof. A result that would take pages to describe has a name there instead, and
contracts above it speak of the name.
