use sp1_sha_extend::chip::{ShaExtendChip, ShaExtendEvent, SHA_EXTEND_CYCLES};
use sp1_sha_extend::runtime::{
    ExecutionRecord, MemoryReadRecord, MemoryRecord, MemoryWriteRecord, SyscallContext,
};
use sp1_sha_extend::schedule::sha_extend;
use sp1_sha_extend::trace::ShaExtendRow;

fn extend_word(x: u32) -> u32 {
    x ^ (x >> 1) ^ (x >> 2) ^ (x >> 3)
}

#[test]
fn sha_extend_of_constant_words() {
    let mut w = vec![800u32; 64];
    sha_extend(&mut w);
    let mut expected = vec![800u32; 16];
    expected.extend(vec![540u32; 15]);
    expected.extend(vec![982u32; 15]);
    expected.extend(vec![690u32; 15]);
    expected.extend(vec![785u32; 3]);
    assert_eq!(w, expected);
}

#[test]
fn sha_extend_reads_the_words_it_wrote() {
    let mut w: Vec<u32> = (0..64).collect();
    sha_extend(&mut w);
    assert_eq!(&w[..16], &(0..16).collect::<Vec<u32>>()[..]);
    assert_eq!(w[16], 1);
    assert_eq!(w[17], 3);
    assert_eq!(w[30], 10);
    // w[31] is computed from w[16], which this extension wrote
    assert_eq!(w[31], extend_word(w[16]));
    assert_eq!(w[63], 3);
    for i in 16..64 {
        assert_eq!(w[i], extend_word(w[i - 15]));
    }
}

#[test]
fn sha_extend_of_extreme_words() {
    assert_eq!(extend_word(u32::MAX), 2684354560);
    let mut w = vec![u32::MAX; 64];
    sha_extend(&mut w);
    assert_eq!(w[16], 2684354560);
    assert_eq!(w[31], extend_word(2684354560));
    let mut z = vec![0u32; 64];
    sha_extend(&mut z);
    assert_eq!(z, vec![0u32; 64]);
}

#[test]
fn sha_extend_leaves_words_past_64() {
    let mut w = vec![7u32; 70];
    w[64] = 11;
    w[69] = 13;
    sha_extend(&mut w);
    assert_eq!(w.len(), 70);
    assert_eq!(w[64], 11);
    assert_eq!(&w[65..69], &[7, 7, 7, 7]);
    assert_eq!(w[69], 13);
    assert_eq!(w[16], extend_word(7));
}

#[test]
fn sha_extend_twice_is_once() {
    let mut w: Vec<u32> = (0..64).map(|i| i * 0x9e37_79b9u32.wrapping_mul(i + 1)).collect();
    sha_extend(&mut w);
    let once = w.clone();
    sha_extend(&mut w);
    assert_eq!(w, once);
}

#[test]
fn sha_extend_ignores_words_16_to_64() {
    let mut a: Vec<u32> = (0..64).collect();
    let mut b = a.clone();
    for i in 16..64 {
        b[i] = 0xdead_beef ^ i as u32;
    }
    sha_extend(&mut a);
    sha_extend(&mut b);
    assert_eq!(a, b);
}

#[test]
fn execute_records_reads_and_writes() {
    let w_ptr = 0x200u32;
    let mut rt = SyscallContext::new(3, 1000);
    for i in 0..64u32 {
        rt.memory.insert(w_ptr + 4 * i, MemoryRecord { value: i + 5, shard: 2, timestamp: 7 + i });
    }
    // a neighbour of the array that the call must not touch
    rt.memory.insert(w_ptr + 256, MemoryRecord { value: 99, shard: 2, timestamp: 1 });
    let chip = ShaExtendChip::new();
    assert_eq!(chip.execute(&mut rt, w_ptr, 0), None);

    let mut w: Vec<u32> = (0..64).map(|i| i + 5).collect();
    sha_extend(&mut w);

    assert_eq!(rt.clk, 1000 + SHA_EXTEND_CYCLES);
    assert_eq!(rt.current_shard(), 3);
    assert_eq!(rt.record.sha_extend_events.len(), 1);
    let e = &rt.record.sha_extend_events[0];
    assert_eq!((e.shard, e.clk, e.w_ptr), (3, 1000, w_ptr));
    assert_eq!(e.w_i_minus_15_reads.len(), 48);
    assert!(e.w_i_minus_16_reads.is_empty());
    assert_eq!(e.w_i_writes.len(), 48);

    // read of w[1] by the first iteration: the entry as the stores left it
    assert_eq!(
        e.w_i_minus_15_reads[0],
        MemoryReadRecord { value: 6, shard: 3, timestamp: 1000, prev_shard: 2, prev_timestamp: 8 }
    );
    // read of w[16] by iteration 15: written by iteration 0
    assert_eq!(
        e.w_i_minus_15_reads[15],
        MemoryReadRecord {
            value: w[16],
            shard: 3,
            timestamp: 1015,
            prev_shard: 3,
            prev_timestamp: 1000
        }
    );
    // write of w[16] by iteration 0
    assert_eq!(
        e.w_i_writes[0],
        MemoryWriteRecord {
            value: w[16],
            shard: 3,
            timestamp: 1000,
            prev_value: 21,
            prev_shard: 2,
            prev_timestamp: 23
        }
    );
    assert_eq!(e.w_i_writes[47].value, w[63]);
    assert_eq!(e.w_i_writes[47].timestamp, 1047);

    // entries: w[0] untouched, w[1..=48] last read, w[49..64] last written
    assert_eq!(*rt.memory.get(&w_ptr).unwrap(), MemoryRecord { value: 5, shard: 2, timestamp: 7 });
    assert_eq!(
        *rt.memory.get(&(w_ptr + 4)).unwrap(),
        MemoryRecord { value: 6, shard: 3, timestamp: 1000 }
    );
    assert_eq!(
        *rt.memory.get(&(w_ptr + 4 * 47)).unwrap(),
        MemoryRecord { value: w[47], shard: 3, timestamp: 1046 }
    );
    assert_eq!(
        *rt.memory.get(&(w_ptr + 4 * 48)).unwrap(),
        MemoryRecord { value: w[48], shard: 3, timestamp: 1047 }
    );
    assert_eq!(
        *rt.memory.get(&(w_ptr + 4 * 49)).unwrap(),
        MemoryRecord { value: w[49], shard: 3, timestamp: 1033 }
    );
    assert_eq!(
        *rt.memory.get(&(w_ptr + 256)).unwrap(),
        MemoryRecord { value: 99, shard: 2, timestamp: 1 }
    );
    for i in 0..64u32 {
        assert_eq!(rt.memory.get(&(w_ptr + 4 * i)).unwrap().value, w[i as usize]);
    }
}

#[test]
fn execute_on_untouched_memory_reads_zero() {
    let mut rt = SyscallContext::new(1, 0);
    let chip = ShaExtendChip::new();
    assert_eq!(chip.execute(&mut rt, 0, 0), None);
    let e = &rt.record.sha_extend_events[0];
    assert_eq!(
        e.w_i_minus_15_reads[0],
        MemoryReadRecord { value: 0, shard: 1, timestamp: 0, prev_shard: 0, prev_timestamp: 0 }
    );
    assert_eq!(e.w_i_writes[5].prev_value, 0);
    // w[0] was never accessed
    assert!(rt.memory.get(&0).is_none());
    assert_eq!(rt.memory.len(), 63);
}

#[test]
fn memory_reads_and_writes() {
    let mut rt = SyscallContext::new(4, 9);
    let w = rt.mw(8, 77);
    assert_eq!(
        w,
        MemoryWriteRecord { value: 77, shard: 4, timestamp: 9, prev_value: 0, prev_shard: 0, prev_timestamp: 0 }
    );
    rt.clk = 12;
    let (r, v) = rt.mr(8);
    assert_eq!(v, 77);
    assert_eq!(
        r,
        MemoryReadRecord { value: 77, shard: 4, timestamp: 12, prev_shard: 4, prev_timestamp: 9 }
    );
    assert_eq!(*rt.memory.get(&8).unwrap(), MemoryRecord { value: 77, shard: 4, timestamp: 12 });
}

#[test]
fn chip_constants() {
    let chip = ShaExtendChip::new();
    assert_eq!(chip.num_extra_cycles(), 48);
    assert_eq!(chip.name(), "ShaExtend".to_string());
}

fn event_with(shard: u32, clk: u32, w_ptr: u32) -> ShaExtendEvent {
    let mut rt = SyscallContext::new(shard, clk);
    for i in 0..64u32 {
        rt.memory.insert(w_ptr + 4 * i, MemoryRecord { value: 3 * i + 1, shard: 0, timestamp: 0 });
    }
    ShaExtendChip::new().execute(&mut rt, w_ptr, 0);
    rt.record.sha_extend_events.pop().unwrap()
}

#[test]
fn included_when_a_call_was_recorded() {
    let chip = ShaExtendChip::new();
    let mut record = ExecutionRecord::new();
    assert!(!chip.included(&record));
    record.sha_extend_events.push(event_with(1, 0, 0));
    assert!(chip.included(&record));
}

#[test]
fn trace_of_no_calls_is_four_padding_rows() {
    let rows = ShaExtendChip::new().generate_trace(&ExecutionRecord::new());
    assert_eq!(rows.len(), 4);
    for (r, row) in rows.iter().enumerate() {
        assert!(!row.is_real);
        assert_eq!(row.flag_index, r);
        assert_eq!((row.shard, row.clk, row.w_ptr, row.s2, row.w_16.value), (0, 0, 0, 0, 0));
    }
}

#[test]
fn trace_heights() {
    let chip = ShaExtendChip::new();
    for (calls, height) in [(1usize, 64usize), (2, 128), (3, 256), (6, 512), (11, 1024)] {
        let mut record = ExecutionRecord::new();
        for c in 0..calls {
            record.sha_extend_events.push(event_with(1, 100 * c as u32, 0x40));
        }
        let rows = chip.generate_trace(&record);
        assert_eq!(rows.len(), height);
        assert!(!rows[height - 1].is_real);
        assert_eq!(rows.iter().filter(|r| r.is_real).count(), 48 * calls);
    }
}

#[test]
fn trace_rows_of_a_call() {
    let e = event_with(2, 500, 0x80);
    let mut record = ExecutionRecord::new();
    record.sha_extend_events.push(e.clone());
    let rows: Vec<ShaExtendRow> = ShaExtendChip::new().generate_trace(&record);
    assert_eq!(rows.len(), 64);
    for j in 0..48 {
        let row = rows[j];
        let x = e.w_i_minus_15_reads[j].value;
        assert!(row.is_real);
        assert_eq!(row.flag_index, j);
        assert_eq!((row.shard, row.clk, row.w_ptr), (2, 500, 0x80));
        assert_eq!(row.w_0, e.w_i_minus_15_reads[j]);
        assert_eq!((row.s0, row.s1, row.s), (x >> 1, x >> 2, x >> 3));
        assert_eq!(row.s2_intermediate_1, x ^ (x >> 1));
        assert_eq!(row.s2_intermediate_2, (x >> 2) ^ (x >> 3));
        assert_eq!(row.s2, extend_word(x));
        assert_eq!(row.w_16, e.w_i_writes[j]);
        assert_eq!(row.w_16.value, row.s2);
        assert_eq!(row.w_0.timestamp, 500 + j as u32);
    }
    for r in 48..64 {
        assert!(!rows[r].is_real);
        assert_eq!(rows[r].flag_index, r);
    }
}
