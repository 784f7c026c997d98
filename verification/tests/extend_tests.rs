use sp1_sha_extend::chip::ShaExtendChip;
use sp1_sha_extend::runtime::{ExecutionRecord, MemoryRecord, SyscallContext};
use sp1_sha_extend::schedule::sha_extend;

/// Stores `value` in the 64 words at `w_ptr`, as the test program's stores
/// do, one store per cycle starting at `clk`.
fn store_words(rt: &mut SyscallContext, w_ptr: u32, value: u32, clk: u32) {
    for i in 0..64u32 {
        rt.memory.insert(
            w_ptr + i * 4,
            MemoryRecord { value, shard: rt.current_shard, timestamp: clk + i },
        );
    }
}

fn words(rt: &SyscallContext, w_ptr: u32) -> Vec<u32> {
    let mut w = vec![];
    for i in 0..64 {
        w.push(rt.memory.get(&(w_ptr + i * 4)).unwrap().value);
    }
    w
}

#[test]
fn test_sha_prove() {
    let w_ptr = 100;
    let a = 800;

    let mut rt = SyscallContext::new(1, 0);
    store_words(&mut rt, w_ptr, a, 0);
    rt.clk = 200;
    let chip = ShaExtendChip::new();
    assert_eq!(chip.execute(&mut rt, w_ptr, 0), None);

    let mut w_computed = vec![];
    for i in 0..64 {
        w_computed.push(rt.memory.get(&(w_ptr + i * 4)).unwrap().value);
    }

    let mut w_expected = vec![a; 64];
    sha_extend(&mut w_expected);

    println!("expected: {:?}", w_expected);
    println!("computed: {:?}", w_computed);

    assert_eq!(w_computed, w_expected);
}

/// The extension part of the multi-precompile program: `calls` extensions of
/// the same 64 words, all set to 1, run in shards whose traces are generated.
#[test]
fn test_multi_precompile_program_with_patched_stark_machine() {
    let calls = 100_000usize;
    let calls_per_shard = 1_000usize;
    let w_ptr = 0x1000u32;
    let chip = ShaExtendChip::new();

    let mut rt = SyscallContext::new(1, 0);
    store_words(&mut rt, w_ptr, 1, 0);
    rt.clk = 64;
    let mut done = 0usize;
    while done < calls {
        assert_eq!(chip.execute(&mut rt, w_ptr, 0), None);
        done += 1;
        if done % calls_per_shard == 0 || done == calls {
            assert!(chip.included(&rt.record));
            let n = rt.record.sha_extend_events.len();
            let rows = chip.generate_trace(&rt.record);
            assert!(rows.len().is_power_of_two());
            assert!(rows.len() > 48 * n);
            assert!(rows[..48 * n].iter().all(|r| r.is_real && r.w_16.value == r.s2));
            assert!(!rows[rows.len() - 1].is_real);
            rt.record.sha_extend_events.clear();
            rt.current_shard += 1;
            rt.clk = 0;
        }
    }

    let mut expected = vec![1u32; 64];
    sha_extend(&mut expected);
    assert_eq!(words(&rt, w_ptr), expected);
}

/// The trace of a shard that recorded no extension call.
#[test]
fn generate_trace() {
    let shard = ExecutionRecord::new();
    let chip = ShaExtendChip::new();
    let trace = chip.generate_trace(&shard);
    println!("{:?}", trace);
    assert_eq!(trace.len(), 4);
    assert!(trace.iter().all(|row| !row.is_real));
}
