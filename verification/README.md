# sp1_sha_extend

The SHA-256 message-schedule extension precompile, verified with Verus.

- `src/schedule.rs`: `sha_extend`, which recomputes `w[16..64]` in place, with
  its specification and the laws of the extension (uniqueness of the result,
  idempotence, independence from the overwritten words).
- `src/runtime.rs`: the memory a syscall sees (entries that remember their last
  access), reads and writes with their records, and the execution record.
- `src/chip.rs`: the event and the chip; `ShaExtendChip::execute` runs the
  extension on the 64 words at a pointer and records what it read and wrote.
- `src/trace.rs`: the trace rows of the recorded calls, padded to a power of two,
  and the laws that the trace satisfies.
- `app/lib.rs`: serialisable copies of the event and its records.
