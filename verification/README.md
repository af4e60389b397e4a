# mikura

An object database core, written in Verus: applications write and read
objects, the object log is the store of record, and the join projection that
evaluation reads is a cache of the log that can be deleted and rebuilt.

## Layout

- `src/` — the verified library.
  - `logfmt`, `codec`, `pagelog`: record bodies, 4 KiB CRC-32 pages, the
    superblock, and the page writer. The writer returns the file steps
    (`LogWrite`) that the caller performs, so the library does no I/O.
  - `store`, `sidecar`, `rebuild`: the live store (identity facts, latest
    properties, join projection), the checksummed checkpoint and delta files
    beside the log (`MKJOIN04` checkpoints, `MKJOIN4D` deltas), and the laws
    that a store reopened from them answers like one replayed from the log.
    A checkpoint that does not read back fails opening closed; a stale one,
    or a delta that does not read back, is rebuilt from the log. Each Action
    id is claimed by the first write that carries it: a repeat of that write
    writes nothing, and a reuse for another object or body is refused.
  - `joins`, `compute`, `objectset`, `page`: hop/count/sum evaluation over the
    projection, predicates, ordered pages and their cursors.
  - `schema`, `overlay`, `value`, `timestamp`: schema descriptors stored as
    objects, the overlay patch format (its row form and how a patch applies to
    properties; the store offers no overlay writes), typed scalar values and their
    canonical forms.
  - `acl`, `ingest`, `wire`: property deny lists and restrictions, the batch,
    changelog, merge and stream ingest folds, and the host's wire rules.
- `tests/` — tests of the library on concrete values; logs are held in memory.
- `app/` — the host process: arguments, the log file and its sidecar files,
  TCP and JSON lines.
