//! The rows of the extension's trace: 48 rows per recorded call, one per
//! iteration, padded with empty rows to a power of two.
use vstd::prelude::*;

use crate::chip::{
    event_of_call, read_record, words_at, write_record, ShaExtendChip, ShaExtendEvent,
};
use crate::runtime::{ExecutionRecord, MemoryReadRecord, MemoryRecord, MemoryWriteRecord};
use crate::schedule::{extend_word, lemma_sha_extend_is_extension, sha_extend_spec};

verus! {

/// The values that one row of the trace is filled from: whether the row is
/// real, the index that the row's control flags are derived from, the
/// call's inputs, the read of `w[i - 15]`, the shifts and exclusive-ors
/// computed from it, and the write of `w[i]`. A padding row holds zeros but
/// for its flag index.
#[derive(Clone, Copy, Debug, PartialEq, Eq, Structural)]
pub struct ShaExtendRow {
    pub is_real: bool,
    pub flag_index: usize,
    pub shard: u32,
    pub clk: u32,
    pub w_ptr: u32,
    pub w_0: MemoryReadRecord,
    pub s0: u32,
    pub s1: u32,
    pub s: u32,
    pub s2_intermediate_1: u32,
    pub s2_intermediate_2: u32,
    pub s2: u32,
    pub w_16: MemoryWriteRecord,
}

/// The number of trace rows per recorded call.
pub const ROWS_PER_CALL: usize = 48;

/// A read record of zeros.
pub open spec fn zero_read() -> MemoryReadRecord {
    MemoryReadRecord { value: 0, shard: 0, timestamp: 0, prev_shard: 0, prev_timestamp: 0 }
}

/// A write record of zeros.
pub open spec fn zero_write() -> MemoryWriteRecord {
    MemoryWriteRecord {
        value: 0,
        shard: 0,
        timestamp: 0,
        prev_value: 0,
        prev_shard: 0,
        prev_timestamp: 0,
    }
}

/// The row of iteration `j` of the call `e`.
pub open spec fn real_row(e: ShaExtendEvent, j: int) -> ShaExtendRow {
    let read = e.w_i_minus_15_reads@[j];
    let w_0 = read.value;
    let s0 = w_0 >> 1u32;
    let s1 = w_0 >> 2u32;
    let s = w_0 >> 3u32;
    ShaExtendRow {
        is_real: true,
        flag_index: j as usize,
        shard: e.shard,
        clk: e.clk,
        w_ptr: e.w_ptr,
        w_0: read,
        s0: s0,
        s1: s1,
        s: s,
        s2_intermediate_1: w_0 ^ s0,
        s2_intermediate_2: s1 ^ s,
        s2: (w_0 ^ s0) ^ (s1 ^ s),
        w_16: e.w_i_writes@[j],
    }
}

/// The padding row at index `r` of the trace.
pub open spec fn padding_row(r: int) -> ShaExtendRow {
    ShaExtendRow {
        is_real: false,
        flag_index: r as usize,
        shard: 0,
        clk: 0,
        w_ptr: 0,
        w_0: zero_read(),
        s0: 0,
        s1: 0,
        s: 0,
        s2_intermediate_1: 0,
        s2_intermediate_2: 0,
        s2: 0,
        w_16: zero_write(),
    }
}

/// Whether `n` is a power of two.
pub open spec fn is_power_of_two(n: nat) -> bool
    decreases n,
{
    if n == 1 {
        true
    } else if n >= 2 && n % 2 == 0 {
        is_power_of_two((n / 2) as nat)
    } else {
        false
    }
}

/// `h` is the height of a trace of `n` rows: the least power of two that
/// is at least `n`, but never less than 4.
pub open spec fn is_padded_height(h: nat, n: nat) -> bool {
    &&& is_power_of_two(h)
    &&& h >= 4
    &&& h >= n
    &&& h == 4 || h / 2 < n
}

/// `rows` is the trace of the calls `events`: its height is the padded
/// height of their rows; the rows of each call's iterations come first, in
/// order, then padding rows.
pub open spec fn is_trace_of(rows: Seq<ShaExtendRow>, events: Seq<ShaExtendEvent>) -> bool {
    let n = 48 * events.len();
    &&& is_padded_height(rows.len(), n)
    &&& forall|r: int| 0 <= r < n ==> #[trigger] rows[r] == real_row(events[r / 48], r % 48)
    &&& forall|r: int| n <= r < rows.len() ==> #[trigger] rows[r] == padding_row(r)
}

/// A real row is consistent when the value it writes is the value `s2` it
/// computes, and both accesses happen at its call's shard and at the
/// cycle of its iteration.
pub open spec fn row_is_consistent(row: ShaExtendRow) -> bool {
    row.is_real ==> {
        &&& row.w_16.value == row.s2
        &&& row.w_0.shard == row.shard
        &&& row.w_16.shard == row.shard
        &&& row.w_0.timestamp == row.clk + row.flag_index
        &&& row.w_16.timestamp == row.clk + row.flag_index
    }
}

/// No power of two is a multiple of three.
pub proof fn lemma_power_of_two_not_multiple_of_three(n: nat)
    requires
        is_power_of_two(n),
    ensures
        n % 3 != 0,
    decreases n,
{
    if n != 1 {
        let m = (n / 2) as nat;
        lemma_power_of_two_not_multiple_of_three(m);
        assert(n == 2 * m);
        assert((2 * m) % 3 != 0) by (nonlinear_arith)
            requires
                m % 3 != 0,
        ;
    }
}

/// A trace of the right height for whole calls always ends in padding:
/// its height is strictly more than the rows of the calls.
pub proof fn lemma_trace_ends_in_padding(h: nat, calls: nat)
    requires
        is_padded_height(h, 48 * calls),
    ensures
        h > 48 * calls,
{
    if calls > 0 {
        lemma_power_of_two_not_multiple_of_three(h);
        assert((48 * calls) % 3 == 0) by (nonlinear_arith);
    }
}

/// What each row of a trace holds, in terms of the calls: the rows before
/// `48 * calls` are real, and row `r` carries call `r / 48`'s shard, clock
/// and pointer, its iteration `r % 48` as flag index, that iteration's read
/// and write records unchanged, the three shifts of the value read, and the
/// exclusive-ors that make the step of that value; every later row is a
/// padding row of zeros whose flag index is its own index; there is at least
/// one padding row and at least four rows.
pub proof fn lemma_trace_rows(rows: Seq<ShaExtendRow>, events: Seq<ShaExtendEvent>)
    requires
        is_trace_of(rows, events),
        rows.len() <= usize::MAX,
    ensures
        rows.len() > 48 * events.len(),
        rows.len() >= 4,
        forall|r: int|
            0 <= r < 48 * events.len() ==> {
                let row = #[trigger] rows[r];
                let e = events[r / 48];
                let x = row.w_0.value;
                &&& row.is_real
                &&& row.flag_index == r % 48
                &&& row.shard == e.shard
                &&& row.clk == e.clk
                &&& row.w_ptr == e.w_ptr
                &&& row.w_0 == e.w_i_minus_15_reads@[r % 48]
                &&& row.w_16 == e.w_i_writes@[r % 48]
                &&& row.s0 == x >> 1u32
                &&& row.s1 == x >> 2u32
                &&& row.s == x >> 3u32
                &&& row.s2_intermediate_1 == x ^ row.s0
                &&& row.s2_intermediate_2 == row.s1 ^ row.s
                &&& row.s2 == row.s2_intermediate_1 ^ row.s2_intermediate_2
                &&& row.s2 == extend_word(x)
            },
        forall|r: int|
            48 * events.len() <= r < rows.len() ==> {
                let row = #[trigger] rows[r];
                &&& !row.is_real
                &&& row.flag_index == r
                &&& row.shard == 0
                &&& row.clk == 0
                &&& row.w_ptr == 0
                &&& row.w_0 == MemoryReadRecord {
                    value: 0,
                    shard: 0,
                    timestamp: 0,
                    prev_shard: 0,
                    prev_timestamp: 0,
                }
                &&& row.s0 == 0 && row.s1 == 0 && row.s == 0
                &&& row.s2_intermediate_1 == 0 && row.s2_intermediate_2 == 0 && row.s2 == 0
                &&& row.w_16 == MemoryWriteRecord {
                    value: 0,
                    shard: 0,
                    timestamp: 0,
                    prev_value: 0,
                    prev_shard: 0,
                    prev_timestamp: 0,
                }
            },
{
    lemma_trace_ends_in_padding(rows.len(), events.len());
    assert forall|r: int| 0 <= r < 48 * events.len() implies {
        let row = #[trigger] rows[r];
        let e = events[r / 48];
        let x = row.w_0.value;
        &&& row.is_real
        &&& row.flag_index == r % 48
        &&& row.shard == e.shard
        &&& row.clk == e.clk
        &&& row.w_ptr == e.w_ptr
        &&& row.w_0 == e.w_i_minus_15_reads@[r % 48]
        &&& row.w_16 == e.w_i_writes@[r % 48]
        &&& row.s0 == x >> 1u32
        &&& row.s1 == x >> 2u32
        &&& row.s == x >> 3u32
        &&& row.s2_intermediate_1 == x ^ row.s0
        &&& row.s2_intermediate_2 == row.s1 ^ row.s
        &&& row.s2 == row.s2_intermediate_1 ^ row.s2_intermediate_2
        &&& row.s2 == extend_word(x)
    } by {
        let x = rows[r].w_0.value;
        assert(rows[r] == real_row(events[r / 48], r % 48));
        assert((x ^ (x >> 1u32)) ^ ((x >> 2u32) ^ (x >> 3u32)) == extend_word(x)) by (bit_vector);
    }
    assert forall|r: int| 48 * events.len() <= r < rows.len() implies {
        let row = #[trigger] rows[r];
        &&& !row.is_real
        &&& row.flag_index == r
        &&& row.shard == 0
        &&& row.clk == 0
        &&& row.w_ptr == 0
        &&& row.w_0 == MemoryReadRecord {
            value: 0,
            shard: 0,
            timestamp: 0,
            prev_shard: 0,
            prev_timestamp: 0,
        }
        &&& row.s0 == 0 && row.s1 == 0 && row.s == 0
        &&& row.s2_intermediate_1 == 0 && row.s2_intermediate_2 == 0 && row.s2 == 0
        &&& row.w_16 == MemoryWriteRecord {
            value: 0,
            shard: 0,
            timestamp: 0,
            prev_value: 0,
            prev_shard: 0,
            prev_timestamp: 0,
        }
    } by {
        assert(rows[r] == padding_row(r));
    }
}

/// Along a trace, a real row that is not the last iteration of its call is
/// followed by the real row of the next iteration of the same call; the
/// flag index of a real row is its iteration; the last row is padding.
pub proof fn lemma_trace_transitions(rows: Seq<ShaExtendRow>, events: Seq<ShaExtendEvent>)
    requires
        is_trace_of(rows, events),
    ensures
        !rows.last().is_real,
        forall|r: int|
            0 <= r < rows.len() && (#[trigger] rows[r]).is_real ==> rows[r].flag_index == r % 48,
        forall|r: int|
            0 <= r < rows.len() - 1 && (#[trigger] rows[r]).is_real && rows[r].flag_index != 47
                ==> {
                &&& rows[r + 1].is_real
                &&& rows[r + 1].flag_index == rows[r].flag_index + 1
                &&& rows[r + 1].shard == rows[r].shard
                &&& rows[r + 1].clk == rows[r].clk
                &&& rows[r + 1].w_ptr == rows[r].w_ptr
            },
{
    let n = 48 * events.len();
    lemma_trace_ends_in_padding(rows.len(), events.len());
    assert(rows[rows.len() - 1] == padding_row(rows.len() - 1));
    assert forall|r: int|
        0 <= r < rows.len() && (#[trigger] rows[r]).is_real implies rows[r].flag_index == r % 48 by {
        if r >= n {
            assert(rows[r] == padding_row(r));
        }
    }
    assert forall|r: int|
        0 <= r < rows.len() - 1 && (#[trigger] rows[r]).is_real && rows[r].flag_index != 47
        implies {
        &&& rows[r + 1].is_real
        &&& rows[r + 1].flag_index == rows[r].flag_index + 1
        &&& rows[r + 1].shard == rows[r].shard
        &&& rows[r + 1].clk == rows[r].clk
        &&& rows[r + 1].w_ptr == rows[r].w_ptr
    } by {
        if r >= n {
            assert(rows[r] == padding_row(r));
        }
        assert(r < n);
        assert(r % 48 != 47);
        assert((r + 1) / 48 == r / 48 && (r + 1) % 48 == r % 48 + 1 && r + 1 < n) by (nonlinear_arith)
            requires
                0 <= r < n,
                r % 48 != 47,
                n % 48 == 0,
        ;
        assert(rows[r + 1] == real_row(events[(r + 1) / 48], (r + 1) % 48));
    }
}

/// The rows of a call that the syscall recorded are consistent: each writes
/// the value it computes, at its call's shard and its iteration's cycle.
pub proof fn lemma_rows_of_call_consistent(e: ShaExtendEvent, mem0: Map<u32, MemoryRecord>)
    requires
        event_of_call(e, mem0),
        e.clk + 48 <= u32::MAX,
    ensures
        forall|j: int| 0 <= j < 48 ==> row_is_consistent(#[trigger] real_row(e, j)),
{
    let w0 = words_at(mem0, e.w_ptr);
    lemma_sha_extend_is_extension(w0);
    assert forall|j: int| 0 <= j < 48 implies row_is_consistent(#[trigger] real_row(e, j)) by {
        let x = sha_extend_spec(w0)[j + 1];
        assert(e.w_i_minus_15_reads@[j] == read_record(mem0, e.w_ptr, e.shard, e.clk, j));
        assert(e.w_i_writes@[j] == write_record(mem0, e.w_ptr, e.shard, e.clk, j));
        assert(sha_extend_spec(w0)[j + 16] == extend_word(x));
        assert((x ^ (x >> 1u32)) ^ ((x >> 2u32) ^ (x >> 3u32)) == extend_word(x)) by (bit_vector);
    }
}

impl ShaExtendChip {
    /// The name of the chip.
    pub fn name(&self) -> (name: String)
        ensures
            name@ == "ShaExtend"@,
    {
        "ShaExtend".to_owned()
    }

    /// Whether a shard has rows in this chip's trace: whether it recorded a call.
    pub fn included(&self, shard: &ExecutionRecord) -> (b: bool)
        ensures
            b == (shard.sha_extend_events@.len() > 0),
    {
        !shard.sha_extend_events.is_empty()
    }

    /// The rows of the trace of `input`'s calls: for each call in order, the
    /// rows of its 48 iterations, then padding rows up to the height.
    pub fn generate_trace(&self, input: &ExecutionRecord) -> (rows: Vec<ShaExtendRow>)
        requires
            48 * input.sha_extend_events@.len() <= usize::MAX / 2,
            forall|c: int|
                0 <= c < input.sha_extend_events@.len() ==> {
                    &&& #[trigger] input.sha_extend_events@[c].w_i_minus_15_reads@.len() >= 48
                    &&& input.sha_extend_events@[c].w_i_writes@.len() >= 48
                },
        ensures
            ({
                let events = input.sha_extend_events@;
                &&& is_trace_of(rows@, events)
                &&& !rows@.last().is_real
            }),
    {
        let mut rows: Vec<ShaExtendRow> = Vec::new();
        let ghost events = input.sha_extend_events@;
        let n_events = input.sha_extend_events.len();

        for i in 0..n_events
            invariant
                n_events == events.len(),
                events == input.sha_extend_events@,
                48 * events.len() <= usize::MAX / 2,
                forall|c: int|
                    0 <= c < events.len() ==> {
                        &&& #[trigger] events[c].w_i_minus_15_reads@.len() >= 48
                        &&& events[c].w_i_writes@.len() >= 48
                    },
                rows@.len() == 48 * i,
                forall|r: int|
                    0 <= r < rows@.len() ==> #[trigger] rows@[r] == real_row(
                        events[r / 48],
                        r % 48,
                    ),
        {
            let event = &input.sha_extend_events[i];
            assert(event.w_i_minus_15_reads@.len() >= 48);
            for j in 0..ROWS_PER_CALL
                invariant
                    events == input.sha_extend_events@,
                    0 <= i < events.len(),
                    *event == events[i as int],
                    event.w_i_minus_15_reads@.len() >= 48,
                    event.w_i_writes@.len() >= 48,
                    rows@.len() == 48 * i + j,
                    forall|r: int|
                        0 <= r < rows@.len() ==> #[trigger] rows@[r] == real_row(
                            events[r / 48],
                            r % 48,
                        ),
            {
                let read = event.w_i_minus_15_reads[j];
                let w_0 = read.value;

                // `s0 := w[i-15] >> 1`.
                let s0 = w_0 >> 1;
                // `s1 := w[i-15] >> 2`.
                let s1 = w_0 >> 2;
                // `s := w[i-15] >> 3`.
                let s = w_0 >> 3;

                // `s2 := w[i-15] ^ s0 ^ s1 ^ s`.
                let s2_intermediate_1 = w_0 ^ s0;
                let s2_intermediate_2 = s1 ^ s;
                let s2 = s2_intermediate_1 ^ s2_intermediate_2;

                let row = ShaExtendRow {
                    is_real: true,
                    flag_index: j,
                    shard: event.shard,
                    clk: event.clk,
                    w_ptr: event.w_ptr,
                    w_0: read,
                    s0,
                    s1,
                    s,
                    s2_intermediate_1,
                    s2_intermediate_2,
                    s2,
                    w_16: event.w_i_writes[j],
                };
                let ghost r: int = rows@.len() as int;
                rows.push(row);
                proof {
                    assert(r / 48 == i && r % 48 == j) by (nonlinear_arith)
                        requires
                            r == 48 * i + j,
                            0 <= j < 48,
                            0 <= i,
                    ;
                }
            }
        }

        let nb_rows = rows.len();
        let ghost n = 48 * events.len();
        let mut padded_nb_rows: usize = 1;
        while padded_nb_rows < nb_rows
            invariant
                nb_rows == n,
                n <= usize::MAX / 2,
                is_power_of_two(padded_nb_rows as nat),
                padded_nb_rows >= 1,
                padded_nb_rows == 1 || padded_nb_rows / 2 < nb_rows,
            decreases usize::MAX - padded_nb_rows,
        {
            padded_nb_rows = padded_nb_rows * 2;
            assert(is_power_of_two(padded_nb_rows as nat));
        }
        if padded_nb_rows == 2 || padded_nb_rows == 1 {
            padded_nb_rows = 4;
            assert(is_power_of_two(2));
            assert(is_power_of_two(4));
        }
        proof {
            lemma_trace_ends_in_padding(padded_nb_rows as nat, events.len());
        }

        for i in nb_rows..padded_nb_rows
            invariant
                nb_rows == n,
                is_padded_height(padded_nb_rows as nat, n),
                rows@.len() == i,
                forall|r: int|
                    0 <= r < n ==> #[trigger] rows@[r] == real_row(events[r / 48], r % 48),
                forall|r: int| n <= r < rows@.len() ==> #[trigger] rows@[r] == padding_row(r),
        {
            let row = ShaExtendRow {
                is_real: false,
                flag_index: i,
                shard: 0,
                clk: 0,
                w_ptr: 0,
                w_0: MemoryReadRecord {
                    value: 0,
                    shard: 0,
                    timestamp: 0,
                    prev_shard: 0,
                    prev_timestamp: 0,
                },
                s0: 0,
                s1: 0,
                s: 0,
                s2_intermediate_1: 0,
                s2_intermediate_2: 0,
                s2: 0,
                w_16: MemoryWriteRecord {
                    value: 0,
                    shard: 0,
                    timestamp: 0,
                    prev_value: 0,
                    prev_shard: 0,
                    prev_timestamp: 0,
                },
            };
            rows.push(row);
        }
        proof {
            assert(padding_row(rows@.len() - 1) == rows@.last());
        }
        rows
    }
}

} // verus!
