//! A model of the physical memory, by words of 8 Bytes.

use vstd::prelude::*;
use std::collections::HashMap;

verus! {

/// The words of physical memory that have been written, by address; every
/// other word reads as zero
pub struct PhysicalMemory {
    pub words: HashMap<u64, u64>,
}

/// The word read at `addr` in the memory `m`
pub open spec fn word_at(m: Map<u64, u64>, addr: u64) -> u64 {
    if m.contains_key(addr) { m[addr] } else { 0 }
}

impl PhysicalMemory {
    pub open spec fn view(&self) -> Map<u64, u64> {
        self.words@
    }

    /// Returns a memory where every word is zero
    pub fn new() -> (r: Self)
        ensures
            r.view() == Map::<u64, u64>::empty(),
    {
        PhysicalMemory { words: HashMap::new() }
    }

    /// Reads the word at the given address
    pub fn read(&self, addr: u64) -> (r: u64)
        ensures
            r == word_at(self.view(), addr),
    {
        match self.words.get(&addr) {
            Some(v) => *v,
            None => 0,
        }
    }

    /// Writes the word at the given address
    pub fn write(&mut self, addr: u64, value: u64)
        ensures
            final(self).view() == old(self).view().insert(addr, value),
    {
        self.words.insert(addr, value);
    }
}

} // verus!
