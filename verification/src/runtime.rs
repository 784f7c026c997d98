//! The part of the machine that a syscall sees: word-addressed memory whose
//! entries remember the shard and clock cycle of their last access, the
//! current shard and clock, and the record of events that the trace
//! generators read.
use std::collections::HashMap;
use vstd::prelude::*;

use crate::chip::ShaExtendEvent;

verus! {

broadcast use vstd::std_specs::hash::group_hash_axioms;

/// One memory entry: its value and the shard and clock cycle of its last access.
#[derive(Clone, Copy, Debug, PartialEq, Eq, Structural)]
pub struct MemoryRecord {
    pub value: u32,
    pub shard: u32,
    pub timestamp: u32,
}

/// What a read of memory reports: the value read, when it was read, and
/// when the entry was accessed before.
#[derive(Clone, Copy, Debug, PartialEq, Eq, Structural)]
pub struct MemoryReadRecord {
    pub value: u32,
    pub shard: u32,
    pub timestamp: u32,
    pub prev_shard: u32,
    pub prev_timestamp: u32,
}

/// What a write of memory reports: the value written, when, and the value
/// and access time that the entry had before.
#[derive(Clone, Copy, Debug, PartialEq, Eq, Structural)]
pub struct MemoryWriteRecord {
    pub value: u32,
    pub shard: u32,
    pub timestamp: u32,
    pub prev_value: u32,
    pub prev_shard: u32,
    pub prev_timestamp: u32,
}

/// The events gathered while executing, for the trace generators.
pub struct ExecutionRecord {
    pub sha_extend_events: Vec<ShaExtendEvent>,
}

/// The state that a syscall runs against.
pub struct SyscallContext {
    pub current_shard: u32,
    pub clk: u32,
    pub memory: HashMap<u32, MemoryRecord>,
    pub record: ExecutionRecord,
}

/// The entry of `addr` in `mem`; memory that was never accessed holds zero,
/// accessed at shard 0 and cycle 0.
pub open spec fn entry(mem: Map<u32, MemoryRecord>, addr: u32) -> MemoryRecord {
    if mem.contains_key(addr) {
        mem[addr]
    } else {
        MemoryRecord { value: 0, shard: 0, timestamp: 0 }
    }
}

impl ExecutionRecord {
    /// An empty record.
    pub fn new() -> (r: ExecutionRecord)
        ensures
            r.sha_extend_events@.len() == 0,
    {
        ExecutionRecord { sha_extend_events: Vec::new() }
    }
}

impl SyscallContext {
    /// A context with empty memory and an empty record, at the given shard and cycle.
    pub fn new(current_shard: u32, clk: u32) -> (rt: SyscallContext)
        ensures
            rt.current_shard == current_shard,
            rt.clk == clk,
            rt.memory@ == Map::<u32, MemoryRecord>::empty(),
            rt.record.sha_extend_events@.len() == 0,
    {
        SyscallContext {
            current_shard,
            clk,
            memory: HashMap::new(),
            record: ExecutionRecord::new(),
        }
    }

    /// The current shard.
    pub fn current_shard(&self) -> (shard: u32)
        ensures
            shard == self.current_shard,
    {
        self.current_shard
    }

    /// Reads the word at `addr` at the current shard and cycle; the entry
    /// keeps its value and records this access.
    pub fn mr(&mut self, addr: u32) -> (res: (MemoryReadRecord, u32))
        ensures
            ({
                let e = entry(old(self).memory@, addr);
                &&& res.1 == e.value
                &&& res.0 == MemoryReadRecord {
                    value: e.value,
                    shard: old(self).current_shard,
                    timestamp: old(self).clk,
                    prev_shard: e.shard,
                    prev_timestamp: e.timestamp,
                }
                &&& final(self).memory@ == old(self).memory@.insert(
                    addr,
                    MemoryRecord {
                        value: e.value,
                        shard: old(self).current_shard,
                        timestamp: old(self).clk,
                    },
                )
            }),
            final(self).current_shard == old(self).current_shard,
            final(self).clk == old(self).clk,
            final(self).record == old(self).record,
    {
        let prev = match self.memory.get(&addr) {
            Some(r) => *r,
            None => MemoryRecord { value: 0, shard: 0, timestamp: 0 },
        };
        let record = MemoryReadRecord {
            value: prev.value,
            shard: self.current_shard,
            timestamp: self.clk,
            prev_shard: prev.shard,
            prev_timestamp: prev.timestamp,
        };
        self.memory.insert(
            addr,
            MemoryRecord { value: prev.value, shard: self.current_shard, timestamp: self.clk },
        );
        (record, prev.value)
    }

    /// Writes `value` to the word at `addr` at the current shard and cycle.
    pub fn mw(&mut self, addr: u32, value: u32) -> (res: MemoryWriteRecord)
        ensures
            ({
                let e = entry(old(self).memory@, addr);
                &&& res == MemoryWriteRecord {
                    value: value,
                    shard: old(self).current_shard,
                    timestamp: old(self).clk,
                    prev_value: e.value,
                    prev_shard: e.shard,
                    prev_timestamp: e.timestamp,
                }
                &&& final(self).memory@ == old(self).memory@.insert(
                    addr,
                    MemoryRecord {
                        value: value,
                        shard: old(self).current_shard,
                        timestamp: old(self).clk,
                    },
                )
            }),
            final(self).current_shard == old(self).current_shard,
            final(self).clk == old(self).clk,
            final(self).record == old(self).record,
    {
        let prev = match self.memory.get(&addr) {
            Some(r) => *r,
            None => MemoryRecord { value: 0, shard: 0, timestamp: 0 },
        };
        let record = MemoryWriteRecord {
            value,
            shard: self.current_shard,
            timestamp: self.clk,
            prev_value: prev.value,
            prev_shard: prev.shard,
            prev_timestamp: prev.timestamp,
        };
        self.memory.insert(
            addr,
            MemoryRecord { value, shard: self.current_shard, timestamp: self.clk },
        );
        record
    }
}

} // verus!
