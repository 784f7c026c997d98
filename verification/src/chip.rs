//! The SHA-256 message-extension precompile: its event and its chip.
use vstd::prelude::*;

use crate::runtime::{
    entry, MemoryReadRecord, MemoryRecord, MemoryWriteRecord, SyscallContext,
};
use crate::schedule::{
    lemma_sha_extend_is_extension, extend_steps, extend_word, lemma_extend_steps_shape, lemma_extend_steps_stable, sha_extend_spec,
};

verus! {

/// What one call of the extension syscall did: where and when it ran, the
/// reads of `w[i - 15]` and the writes of `w[i]`, one per `i` in `16..64`.
#[derive(Debug, Clone)]
pub struct ShaExtendEvent {
    pub shard: u32,
    pub clk: u32,
    pub w_ptr: u32,
    pub w_i_minus_15_reads: Vec<MemoryReadRecord>,
    pub w_i_minus_16_reads: Vec<MemoryReadRecord>,
    pub w_i_writes: Vec<MemoryWriteRecord>,
}

/// Implements the SHA extension operation which loops over i = [16, 63] and
/// modifies w[i] in each iteration. The only input to the syscall is the
/// 4-byte-aligned pointer to the w array.
///
/// In the trace, each SHA extend syscall takes up 48 rows, where each row
/// corresponds to a single iteration of the loop.
#[derive(Default, Debug, Clone, Copy)]
pub struct ShaExtendChip;

/// The number of loop iterations, and of rows and clock cycles, of one call.
pub const SHA_EXTEND_CYCLES: u32 = 48;

impl ShaExtendChip {
    pub fn new() -> (chip: Self)
        ensures
            chip == ShaExtendChip,
    {
        ShaExtendChip
    }

    /// The clock cycles that one call takes beyond the ecall itself.
    pub fn num_extra_cycles(&self) -> (n: u32)
        ensures
            n == SHA_EXTEND_CYCLES,
    {
        48
    }
}

/// The address of the word `w[k]` of the array at `w_ptr`.
pub open spec fn word_addr(w_ptr: u32, k: int) -> u32 {
    (w_ptr + 4 * k) as u32
}

/// Whether `a` is the address of one of the 64 words of the array at `w_ptr`.
pub open spec fn in_words(w_ptr: u32, a: u32) -> bool {
    w_ptr <= a < w_ptr + 256 && (a - w_ptr) % 4 == 0
}

/// The 64 words of the array at `w_ptr` in `mem`.
pub open spec fn words_at(mem: Map<u32, MemoryRecord>, w_ptr: u32) -> Seq<u32> {
    Seq::new(64, |k: int| entry(mem, word_addr(w_ptr, k)).value)
}

/// `mem` has at `a` what `mem0` has there (the same value and access time,
/// or no entry in both).
pub open spec fn same_entry(mem: Map<u32, MemoryRecord>, mem0: Map<u32, MemoryRecord>, a: u32) -> bool {
    &&& mem.contains_key(a) == mem0.contains_key(a)
    &&& mem0.contains_key(a) ==> mem[a] == mem0[a]
}

/// The cycle offset, within a call, of the last access to `w[k]` once `j`
/// iterations have run: `w[k]` is read by iteration `k - 1` and written by
/// iteration `k - 16`.
pub open spec fn last_access(k: int, j: int) -> Option<int> {
    if 1 <= k <= j {
        Some(k - 1)
    } else if 16 <= k < 16 + j {
        Some(k - 16)
    } else {
        None
    }
}

/// The entry of `w[k]` once `j` iterations of a call started from memory
/// `mem0` at `shard` and cycle `clk0` have run.
pub open spec fn word_entry_after(
    mem: Map<u32, MemoryRecord>,
    mem0: Map<u32, MemoryRecord>,
    w_ptr: u32,
    shard: u32,
    clk0: u32,
    j: int,
    k: int,
) -> bool {
    let a = word_addr(w_ptr, k);
    match last_access(k, j) {
        Some(t) => {
            &&& mem.contains_key(a)
            &&& mem[a] == MemoryRecord {
                value: extend_steps(words_at(mem0, w_ptr), j as nat)[k],
                shard: shard,
                timestamp: (clk0 + t) as u32,
            }
        },
        None => same_entry(mem, mem0, a),
    }
}

/// The memory once `j` iterations of a call have run: the words of the
/// array as `word_entry_after` says, every other address untouched.
pub open spec fn memory_after(
    mem: Map<u32, MemoryRecord>,
    mem0: Map<u32, MemoryRecord>,
    w_ptr: u32,
    shard: u32,
    clk0: u32,
    j: int,
) -> bool {
    &&& forall|a: u32| !in_words(w_ptr, a) ==> #[trigger] same_entry(mem, mem0, a)
    &&& forall|k: int|
        0 <= k < 64 ==> #[trigger] word_entry_after(mem, mem0, w_ptr, shard, clk0, j, k)
}

/// The record of the read of `w[t + 1]` by iteration `t` of a call.
pub open spec fn read_record(
    mem0: Map<u32, MemoryRecord>,
    w_ptr: u32,
    shard: u32,
    clk0: u32,
    t: int,
) -> MemoryReadRecord {
    let before = entry(mem0, word_addr(w_ptr, t + 1));
    MemoryReadRecord {
        value: sha_extend_spec(words_at(mem0, w_ptr))[t + 1],
        shard: shard,
        timestamp: (clk0 + t) as u32,
        prev_shard: if t + 1 >= 16 { shard } else { before.shard },
        prev_timestamp: if t + 1 >= 16 { (clk0 + t - 15) as u32 } else { before.timestamp },
    }
}

/// The record of the write of `w[t + 16]` by iteration `t` of a call.
pub open spec fn write_record(
    mem0: Map<u32, MemoryRecord>,
    w_ptr: u32,
    shard: u32,
    clk0: u32,
    t: int,
) -> MemoryWriteRecord {
    let before = entry(mem0, word_addr(w_ptr, t + 16));
    MemoryWriteRecord {
        value: sha_extend_spec(words_at(mem0, w_ptr))[t + 16],
        shard: shard,
        timestamp: (clk0 + t) as u32,
        prev_value: before.value,
        prev_shard: before.shard,
        prev_timestamp: before.timestamp,
    }
}

/// `e` is the event of a call that started from memory `mem0`: its reads
/// and writes are those of the 48 iterations of the call at `e.w_ptr`,
/// `e.shard` and `e.clk`.
pub open spec fn event_of_call(e: ShaExtendEvent, mem0: Map<u32, MemoryRecord>) -> bool {
    &&& e.w_i_minus_15_reads@ == Seq::new(
        48,
        |t: int| read_record(mem0, e.w_ptr, e.shard, e.clk, t),
    )
    &&& e.w_i_minus_16_reads@.len() == 0
    &&& e.w_i_writes@ == Seq::new(48, |t: int| write_record(mem0, e.w_ptr, e.shard, e.clk, t))
}

/// Distinct words of the array have distinct addresses, and exactly the
/// addresses of the array are `in_words`.
proof fn lemma_word_addrs(w_ptr: u32)
    requires
        w_ptr + 252 <= u32::MAX,
    ensures
        forall|k: int| 0 <= k < 64 ==> #[trigger] word_addr(w_ptr, k) == w_ptr + 4 * k,
        forall|k: int| 0 <= k < 64 ==> in_words(w_ptr, #[trigger] word_addr(w_ptr, k)),
        forall|k1: int, k2: int|
            0 <= k1 < 64 && 0 <= k2 < 64 && k1 != k2 ==> #[trigger] word_addr(w_ptr, k1)
                != #[trigger] word_addr(w_ptr, k2),
{
}

/// One iteration moves the memory from `memory_after` `j` to `memory_after` `j + 1`.
proof fn lemma_iteration(
    mem: Map<u32, MemoryRecord>,
    mem0: Map<u32, MemoryRecord>,
    w_ptr: u32,
    shard: u32,
    clk0: u32,
    j: int,
)
    requires
        w_ptr + 252 <= u32::MAX,
        clk0 + 48 <= u32::MAX,
        0 <= j < 48,
        memory_after(mem, mem0, w_ptr, shard, clk0, j),
    ensures
        entry(mem, word_addr(w_ptr, j + 1)).value == extend_steps(words_at(mem0, w_ptr), j as nat)[j + 1],
        entry(mem, word_addr(w_ptr, j + 1)).shard == (if j + 1 >= 16 { shard } else {
            entry(mem0, word_addr(w_ptr, j + 1)).shard
        }),
        entry(mem, word_addr(w_ptr, j + 1)).timestamp == (if j + 1 >= 16 { (clk0 + j - 15) as u32 } else {
            entry(mem0, word_addr(w_ptr, j + 1)).timestamp
        }),
        entry(mem, word_addr(w_ptr, j + 16)) == entry(mem0, word_addr(w_ptr, j + 16)),
        ({
            let x = extend_steps(words_at(mem0, w_ptr), j as nat)[j + 1];
            let mem1 = mem.insert(
                word_addr(w_ptr, j + 1),
                MemoryRecord { value: x, shard: shard, timestamp: (clk0 + j) as u32 },
            );
            let mem2 = mem1.insert(
                word_addr(w_ptr, j + 16),
                MemoryRecord { value: extend_word(x), shard: shard, timestamp: (clk0 + j) as u32 },
            );
            memory_after(mem2, mem0, w_ptr, shard, clk0, j + 1)
        }),
{
    lemma_word_addrs(w_ptr);
    let w0 = words_at(mem0, w_ptr);
    lemma_extend_steps_shape(w0, j as nat);
    let x = extend_steps(w0, j as nat)[j + 1];
    let ra = word_addr(w_ptr, j + 1);
    let wa = word_addr(w_ptr, j + 16);
    let mem1 = mem.insert(ra, MemoryRecord { value: x, shard: shard, timestamp: (clk0 + j) as u32 });
    let mem2 = mem1.insert(
        wa,
        MemoryRecord { value: extend_word(x), shard: shard, timestamp: (clk0 + j) as u32 },
    );
    assert(word_entry_after(mem, mem0, w_ptr, shard, clk0, j, j + 1));
    assert(word_entry_after(mem, mem0, w_ptr, shard, clk0, j, j + 16));
    if j + 1 < 16 {
        assert(extend_steps(w0, j as nat)[j + 1] == w0[j + 1]) by {
            lemma_extend_steps_stable(w0, 0, j as nat, j + 1);
        }
    }
    assert forall|a: u32| !in_words(w_ptr, a) implies #[trigger] same_entry(mem2, mem0, a) by {
        assert(same_entry(mem, mem0, a));
    }
    assert forall|k: int| 0 <= k < 64 implies #[trigger] word_entry_after(
        mem2,
        mem0,
        w_ptr,
        shard,
        clk0,
        j + 1,
        k,
    ) by {
        assert(word_entry_after(mem, mem0, w_ptr, shard, clk0, j, k));
        if k != j + 1 && k != j + 16 {
            assert(extend_steps(w0, (j + 1) as nat)[k] == extend_steps(w0, j as nat)[k]);
        }
    }
}

/// The records of a call, in terms of the memory before it: every read and
/// write of iteration `t` happens at the call's shard and at cycle
/// `clk + t`; the read of `w[t + 1]` sees the entry that the memory had
/// before the call when `t < 15`, and otherwise the entry that the write of
/// iteration `t - 15` left (its value, shard and cycle); each write of
/// `w[t + 16]` replaces the entry that the memory had before the call and
/// writes the step applied to the value read in the same iteration.
pub proof fn lemma_call_records(e: ShaExtendEvent, mem0: Map<u32, MemoryRecord>)
    requires
        event_of_call(e, mem0),
        e.clk + 48 <= u32::MAX,
        e.w_ptr + 252 <= u32::MAX,
    ensures
        e.w_i_minus_15_reads@.len() == 48,
        e.w_i_writes@.len() == 48,
        forall|t: int|
            0 <= t < 48 ==> {
                let r = #[trigger] e.w_i_minus_15_reads@[t];
                let w = e.w_i_writes@[t];
                let before = entry(mem0, word_addr(e.w_ptr, t + 16));
                &&& r.shard == e.shard
                &&& r.timestamp == e.clk + t
                &&& w.shard == e.shard
                &&& w.timestamp == e.clk + t
                &&& w.value == extend_word(r.value)
                &&& w.prev_value == before.value
                &&& w.prev_shard == before.shard
                &&& w.prev_timestamp == before.timestamp
            },
        forall|t: int|
            0 <= t < 15 ==> {
                let r = #[trigger] e.w_i_minus_15_reads@[t];
                let before = entry(mem0, word_addr(e.w_ptr, t + 1));
                &&& r.value == before.value
                &&& r.prev_shard == before.shard
                &&& r.prev_timestamp == before.timestamp
            },
        forall|t: int|
            15 <= t < 48 ==> {
                let r = #[trigger] e.w_i_minus_15_reads@[t];
                let w = e.w_i_writes@[t - 15];
                &&& r.value == w.value
                &&& r.prev_shard == w.shard
                &&& r.prev_timestamp == w.timestamp
            },
{
    let w0 = words_at(mem0, e.w_ptr);
    lemma_sha_extend_is_extension(w0);
    assert forall|t: int| 0 <= t < 48 implies {
        let r = #[trigger] e.w_i_minus_15_reads@[t];
        let w = e.w_i_writes@[t];
        let before = entry(mem0, word_addr(e.w_ptr, t + 16));
        &&& r.shard == e.shard
        &&& r.timestamp == e.clk + t
        &&& w.shard == e.shard
        &&& w.timestamp == e.clk + t
        &&& w.value == extend_word(r.value)
        &&& w.prev_value == before.value
        &&& w.prev_shard == before.shard
        &&& w.prev_timestamp == before.timestamp
    } by {
        assert(e.w_i_minus_15_reads@[t] == read_record(mem0, e.w_ptr, e.shard, e.clk, t));
        assert(e.w_i_writes@[t] == write_record(mem0, e.w_ptr, e.shard, e.clk, t));
        assert(sha_extend_spec(w0)[t + 16] == extend_word(sha_extend_spec(w0)[t + 1]));
    }
    assert forall|t: int| 0 <= t < 15 implies {
        let r = #[trigger] e.w_i_minus_15_reads@[t];
        let before = entry(mem0, word_addr(e.w_ptr, t + 1));
        &&& r.value == before.value
        &&& r.prev_shard == before.shard
        &&& r.prev_timestamp == before.timestamp
    } by {
        assert(e.w_i_minus_15_reads@[t] == read_record(mem0, e.w_ptr, e.shard, e.clk, t));
        assert(sha_extend_spec(w0)[t + 1] == w0[t + 1]);
    }
    assert forall|t: int| 15 <= t < 48 implies {
        let r = #[trigger] e.w_i_minus_15_reads@[t];
        let w = e.w_i_writes@[t - 15];
        &&& r.value == w.value
        &&& r.prev_shard == w.shard
        &&& r.prev_timestamp == w.timestamp
    } by {
        assert(e.w_i_minus_15_reads@[t] == read_record(mem0, e.w_ptr, e.shard, e.clk, t));
        assert(e.w_i_writes@[t - 15] == write_record(mem0, e.w_ptr, e.shard, e.clk, t - 15));
    }
}

/// The memory after a call, in terms of the memory before it: the words of
/// the array satisfy the extension's recurrence and keep `w[0..16]`; `w[0]`
/// is untouched; `w[k]` for `1 <= k <= 48` was last accessed by the read of
/// iteration `k - 1` and `w[k]` for `49 <= k < 64` by the write of iteration
/// `k - 16`, both at the call's shard; every other address is untouched.
pub proof fn lemma_memory_after_call(
    mem: Map<u32, MemoryRecord>,
    mem0: Map<u32, MemoryRecord>,
    w_ptr: u32,
    shard: u32,
    clk0: u32,
)
    requires
        memory_after(mem, mem0, w_ptr, shard, clk0, 48),
        w_ptr + 252 <= u32::MAX,
        clk0 + 48 <= u32::MAX,
    ensures
        forall|a: u32|
            !(w_ptr <= a < w_ptr + 256 && (a - w_ptr) % 4 == 0) ==> {
                &&& #[trigger] mem.contains_key(a) == mem0.contains_key(a)
                &&& mem0.contains_key(a) ==> mem[a] == mem0[a]
            },
        mem.contains_key(w_ptr) == mem0.contains_key(w_ptr),
        mem0.contains_key(w_ptr) ==> mem[w_ptr] == mem0[w_ptr],
        forall|k: int|
            1 <= k <= 48 ==> {
                &&& mem.contains_key(#[trigger] word_addr(w_ptr, k))
                &&& mem[word_addr(w_ptr, k)].shard == shard
                &&& mem[word_addr(w_ptr, k)].timestamp == clk0 + k - 1
            },
        forall|k: int|
            49 <= k < 64 ==> {
                &&& mem.contains_key(#[trigger] word_addr(w_ptr, k))
                &&& mem[word_addr(w_ptr, k)].shard == shard
                &&& mem[word_addr(w_ptr, k)].timestamp == clk0 + k - 16
            },
        forall|k: int|
            0 <= k < 16 ==> entry(mem, #[trigger] word_addr(w_ptr, k)).value == entry(
                mem0,
                word_addr(w_ptr, k),
            ).value,
        forall|k: int|
            16 <= k < 64 ==> entry(mem, #[trigger] word_addr(w_ptr, k)).value == extend_word(
                entry(mem, word_addr(w_ptr, k - 15)).value,
            ),
{
    let w0 = words_at(mem0, w_ptr);
    lemma_sha_extend_is_extension(w0);
    lemma_extend_steps_shape(w0, 48);
    lemma_word_addrs(w_ptr);
    assert forall|a: u32| !(w_ptr <= a < w_ptr + 256 && (a - w_ptr) % 4 == 0) implies {
        &&& #[trigger] mem.contains_key(a) == mem0.contains_key(a)
        &&& mem0.contains_key(a) ==> mem[a] == mem0[a]
    } by {
        assert(!in_words(w_ptr, a));
        assert(same_entry(mem, mem0, a));
    }
    assert(word_entry_after(mem, mem0, w_ptr, shard, clk0, 48, 0));
    assert(word_addr(w_ptr, 0) == w_ptr);
    assert forall|k: int| 1 <= k <= 48 implies {
        &&& mem.contains_key(#[trigger] word_addr(w_ptr, k))
        &&& mem[word_addr(w_ptr, k)].shard == shard
        &&& mem[word_addr(w_ptr, k)].timestamp == clk0 + k - 1
    } by {
        assert(word_entry_after(mem, mem0, w_ptr, shard, clk0, 48, k));
    }
    assert forall|k: int| 49 <= k < 64 implies {
        &&& mem.contains_key(#[trigger] word_addr(w_ptr, k))
        &&& mem[word_addr(w_ptr, k)].shard == shard
        &&& mem[word_addr(w_ptr, k)].timestamp == clk0 + k - 16
    } by {
        assert(word_entry_after(mem, mem0, w_ptr, shard, clk0, 48, k));
    }
    assert forall|k: int| 0 <= k < 64 implies entry(mem, #[trigger] word_addr(w_ptr, k)).value
        == sha_extend_spec(w0)[k] by {
        assert(word_entry_after(mem, mem0, w_ptr, shard, clk0, 48, k));
    }
    assert forall|k: int| 0 <= k < 16 implies entry(mem, #[trigger] word_addr(w_ptr, k)).value
        == entry(mem0, word_addr(w_ptr, k)).value by {
        assert(entry(mem, word_addr(w_ptr, k)).value == sha_extend_spec(w0)[k]);
        assert(sha_extend_spec(w0)[k] == w0[k]);
    }
    assert forall|k: int| 16 <= k < 64 implies entry(mem, #[trigger] word_addr(w_ptr, k)).value
        == extend_word(entry(mem, word_addr(w_ptr, k - 15)).value) by {
        assert(entry(mem, word_addr(w_ptr, k)).value == sha_extend_spec(w0)[k]);
        assert(entry(mem, word_addr(w_ptr, k - 15)).value == sha_extend_spec(w0)[k - 15]);
    }
}

impl ShaExtendChip {
    /// Runs the extension on the 64 words at `arg1`: for `i` in `16..64` it
    /// reads `w[i - 15]`, writes `w[i] := w[i - 15] ^ (w[i - 15] >> 1) ^
    /// (w[i - 15] >> 2) ^ (w[i - 15] >> 3)` and advances the clock by one,
    /// then records the event. `arg2` must be zero.
    pub fn execute(&self, rt: &mut SyscallContext, arg1: u32, arg2: u32) -> (res: Option<u32>)
        requires
            arg2 == 0,
            arg1 + 252 <= u32::MAX,
            old(rt).clk + SHA_EXTEND_CYCLES <= u32::MAX,
        ensures
            res is None,
            // the words of the array end up extended
            words_at(final(rt).memory@, arg1) == sha_extend_spec(words_at(old(rt).memory@, arg1)),
            // and each of them was last accessed as the iterations say; nothing else changes
            memory_after(
                final(rt).memory@,
                old(rt).memory@,
                arg1,
                old(rt).current_shard,
                old(rt).clk,
                SHA_EXTEND_CYCLES as int,
            ),
            final(rt).clk == old(rt).clk + SHA_EXTEND_CYCLES,
            final(rt).current_shard == old(rt).current_shard,
            ({
                let events = final(rt).record.sha_extend_events@;
                let old_events = old(rt).record.sha_extend_events@;
                let e = events.last();
                let mem0 = old(rt).memory@;
                let shard = old(rt).current_shard;
                let clk0 = old(rt).clk;
                &&& events.len() == old_events.len() + 1
                &&& events.drop_last() == old_events
                &&& e.shard == shard
                &&& e.clk == clk0
                &&& e.w_ptr == arg1
                &&& event_of_call(e, mem0)
            }),
    {
        let clk_init = rt.clk;
        let w_ptr = arg1;
        let ghost mem0 = rt.memory@;
        let ghost shard = rt.current_shard;
        let ghost w0 = words_at(mem0, w_ptr);

        let w_ptr_init = w_ptr;
        let mut w_i_minus_15_reads: Vec<MemoryReadRecord> = Vec::new();
        let mut w_i_writes: Vec<MemoryWriteRecord> = Vec::new();
        proof {
            lemma_word_addrs(w_ptr);
            assert forall|k: int| 0 <= k < 64 implies #[trigger] word_entry_after(
                mem0,
                mem0,
                w_ptr,
                shard,
                clk_init,
                0,
                k,
            ) by {}
        }
        for i in 16..64u32
            invariant
                w_ptr + 252 <= u32::MAX,
                clk_init + 48 <= u32::MAX,
                rt.clk == clk_init + (i - 16),
                rt.current_shard == shard,
                rt.record == old(rt).record,
                memory_after(rt.memory@, mem0, w_ptr, shard, clk_init, i - 16),
                w_i_minus_15_reads@ == Seq::new(
                    (i - 16) as nat,
                    |t: int| read_record(mem0, w_ptr, shard, clk_init, t),
                ),
                w_i_writes@ == Seq::new(
                    (i - 16) as nat,
                    |t: int| write_record(mem0, w_ptr, shard, clk_init, t),
                ),
                w0 == words_at(mem0, w_ptr),
        {
            let ghost j: int = i - 16;
            proof {
                lemma_iteration(rt.memory@, mem0, w_ptr, shard, clk_init, j);
                lemma_word_addrs(w_ptr);
                lemma_extend_steps_stable(w0, j as nat, 48, j + 1);
                lemma_extend_steps_stable(w0, (j + 1) as nat, 48, j + 16);
                lemma_extend_steps_shape(w0, j as nat);
                assert(extend_steps(w0, (j + 1) as nat)[j + 16] == extend_word(
                    extend_steps(w0, j as nat)[j + 1],
                ));
            }
            // Read w[i-15].
            let (record, w_i_minus_15) = rt.mr(w_ptr + (i - 15) * 4);
            w_i_minus_15_reads.push(record);

            // Compute `s0`.
            let s0 = w_i_minus_15 >> 1;

            // Compute `s1`.
            let s1 = w_i_minus_15 >> 2;

            // Compute `s`.
            let s = w_i_minus_15 >> 3;

            // Compute `w_i`.
            let w_i = s1 ^ w_i_minus_15 ^ s0 ^ s;
            assert(w_i == extend_word(w_i_minus_15)) by (bit_vector)
                requires
                    s0 == w_i_minus_15 >> 1u32,
                    s1 == w_i_minus_15 >> 2u32,
                    s == w_i_minus_15 >> 3u32,
                    w_i == s1 ^ w_i_minus_15 ^ s0 ^ s,
            ;

            // Write w[i].
            w_i_writes.push(rt.mw(w_ptr + i * 4, w_i));
            rt.clk += 1;
            assert(w_i_minus_15_reads@ =~= Seq::new(
                (j + 1) as nat,
                |t: int| read_record(mem0, w_ptr, shard, clk_init, t),
            ));
            assert(w_i_writes@ =~= Seq::new(
                (j + 1) as nat,
                |t: int| write_record(mem0, w_ptr, shard, clk_init, t),
            ));
        }

        proof {
            let mem = rt.memory@;
            lemma_word_addrs(w_ptr);
            lemma_extend_steps_shape(w0, 48);
            assert forall|k: int| 0 <= k < 64 implies #[trigger] words_at(mem, w_ptr)[k]
                == sha_extend_spec(w0)[k] by {
                assert(word_entry_after(mem, mem0, w_ptr, shard, clk_init, 48, k));
                if k == 0 {
                    lemma_extend_steps_stable(w0, 0, 48, 0);
                }
            }
            assert(words_at(mem, w_ptr) =~= sha_extend_spec(w0));
        }

        // Push the SHA extend event.
        let shard_now = rt.current_shard();
        rt.record.sha_extend_events.push(
            ShaExtendEvent {
                shard: shard_now,
                clk: clk_init,
                w_ptr: w_ptr_init,
                w_i_minus_15_reads,
                w_i_minus_16_reads: Vec::new(),
                w_i_writes,
            },
        );

        None
    }
}

} // verus!
