# object_log

A buffered, multiplexing append log over pluggable object storage, with its
core verified by Verus.

The log stores an ordered, offset-addressed sequence of opaque payloads as
immutable objects. Many produce calls group-commit into one object, so the
number of writes is decoupled from the number of produce calls.

## Layout

- `src/` — the verified library:
  - `segment.rs`: the checksummed segment format, with an encoder and a
    decoder proved against one specification, and the round-trip law.
  - `model.rs`, `error.rs`: topics, partitions, records, requests, errors.
  - `store.rs`, `blob.rs`: key validation, the conditional-write object store
    and the blob store (in memory), byte-range rules, listing.
  - `sequencer.rs`: the offset index behind the sequencers — dense offset
    assignment, lookup, retention, and recovery by replaying commits and
    truncations.
  - `object_backend.rs`: the manifest-based append/read backend's decisions
    (admission, idempotent retries, segment and manifest writes, and the read
    cursor that verifies what it reads).
  - `engine.rs`: the group-commit queue with its byte accounting and take
    decisions, flush triggers, object layout, the replies owed to producers
    by durability, retry policy and fetch accounting.
  - `pipeline.rs`: the flush worker's loop as a state machine — object
    numbering, the in-flight limit, and commits in seal order, with laws
    over whole runs.
  - `log_read.rs`: what a whole read returns — over a log that appends
    built, from any offset — and that it reads only referenced objects.
  - `s3.rs`: multipart cutting and range requests for S3.
  - `text.rs`, `collections.rs`, `digest.rs`: text formatting, a sorted
    string map, and SHA-256.
- `app/` — the asynchronous interfaces and adapters (memory, filesystem, S3),
  the sequencers, the backend and the threaded engine, which perform the I/O
  and call the library for every decision; serde and thiserror copies of the
  library's types.
- `tests/` — tests of the library on concrete values.
