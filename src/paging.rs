//! The four-level page-table hierarchy, seen through a window onto physical
//! memory, and the mapper that translates and installs mappings in it.

use std::collections::HashMap;
use vstd::prelude::*;
use crate::frame::PHYS_ADDR_LIMIT;

verus! {

broadcast use vstd::std_specs::hash::group_hash_axioms;

/// Number of entries in one page table.
pub const ENTRIES_PER_TABLE: u64 = 512;

/// Entry bit: the entry is in use.
pub const PRESENT: u64 = 1;

/// Entry bit: writes are allowed through the entry.
pub const WRITABLE: u64 = 2;

/// Bits of an entry that hold the physical address it points to.
pub const ENTRY_ADDR_MASK: u64 = 0x000f_ffff_ffff_f000;

/// Bits of an entry that hold flags (the low twelve and no-execute).
pub const ENTRY_FLAGS_MASK: u64 = 0x8000_0000_0000_0fff;

pub open spec fn entry_present(e: u64) -> bool {
    e & 1 == 1
}

pub open spec fn entry_addr(e: u64) -> u64 {
    e & 0x000f_ffff_ffff_f000
}

/// The entry that points to `addr` with `flags` and the present bit set.
pub open spec fn make_entry(addr: u64, flags: u64) -> u64 {
    addr | (flags & 0x8000_0000_0000_0fff) | 1
}

/// An address whose bits 48..64 repeat bit 47.
pub open spec fn canonical(va: u64) -> bool {
    va < 0x8000_0000_0000 || va >= 0xffff_8000_0000_0000
}

/// A physical address the architecture can express.
pub open spec fn valid_phys(pa: u64) -> bool {
    pa < PHYS_ADDR_LIMIT
}

/// The index into the table of `level` (4 for the top, 1 for the last) that
/// `va` selects.
pub open spec fn table_index(va: u64, level: nat) -> u64 {
    (va >> (12 + 9 * (level - 1)) as u64) & 0x1ff
}

pub open spec fn page_offset(va: u64) -> u64 {
    va & 0xfff
}

/// Entry `i` of the table at physical address `t`; memory never written
/// reads as zero, a table of empty entries.
pub open spec fn table_entry(m: Map<u64, Seq<u64>>, t: u64, i: u64) -> u64 {
    if m.contains_key(t) && i < m[t].len() {
        m[t][i as int]
    } else {
        0
    }
}

/// The table at `level` on the walk of `va` down from `root`, if the walk
/// gets that far.
pub open spec fn table_at(m: Map<u64, Seq<u64>>, root: u64, va: u64, level: nat) -> Option<u64>
    decreases 4 - level,
{
    if level >= 4 {
        Some(root)
    } else {
        match table_at(m, root, va, level + 1) {
            Some(u) => {
                let e = table_entry(m, u, table_index(va, level + 1));
                if entry_present(e) {
                    Some(entry_addr(e))
                } else {
                    None
                }
            },
            None => None,
        }
    }
}

/// The physical address that `va` translates to, if it is mapped.
pub open spec fn translation(m: Map<u64, Seq<u64>>, root: u64, va: u64) -> Option<u64> {
    if !canonical(va) {
        None
    } else {
        match table_at(m, root, va, 1) {
            Some(t) => {
                let e = table_entry(m, t, table_index(va, 1));
                if entry_present(e) {
                    Some((entry_addr(e) + page_offset(va)) as u64)
                } else {
                    None
                }
            },
            None => None,
        }
    }
}

/// `m2` holds every present entry of `m1` unchanged.
pub open spec fn keeps_present_entries(m1: Map<u64, Seq<u64>>, m2: Map<u64, Seq<u64>>) -> bool {
    forall|t: u64, i: u64|
        entry_present(#[trigger] table_entry(m1, t, i)) ==> table_entry(m2, t, i)
            == table_entry(m1, t, i)
}

/// A frame that the hierarchy uses: the root, a table that was written, or
/// the target of a present entry.
pub open spec fn frame_in_use(m: Map<u64, Seq<u64>>, root: u64, f: u64) -> bool {
    ||| f == root
    ||| m.contains_key(f)
    ||| exists|t: u64, i: u64| #[trigger]
        entry_present(table_entry(m, t, i)) && entry_addr(table_entry(m, t, i)) == f
}

pub open spec fn zero_table() -> Seq<u64> {
    Seq::new(512, |i: int| 0u64)
}

pub(crate) proof fn lemma_entry_bits(addr: u64, flags: u64)
    requires
        addr % 4096 == 0,
        addr < PHYS_ADDR_LIMIT,
    ensures
        entry_present(make_entry(addr, flags)),
        entry_addr(make_entry(addr, flags)) == addr,
        !entry_present(0),
        entry_addr(make_entry(addr, flags)) <= 0x000f_ffff_ffff_f000,
{
    assert((addr | (flags & 0x8000_0000_0000_0fff) | 1) & 1 == 1
        && (addr | (flags & 0x8000_0000_0000_0fff) | 1) & 0x000f_ffff_ffff_f000 == addr
        && 0u64 & 1 == 0) by (bit_vector)
        requires
            addr % 4096 == 0,
            addr < 0x10_0000_0000_0000u64,
    ;
}

proof fn lemma_translation_bound(e: u64, va: u64)
    ensures
        e & 0x000f_ffff_ffff_f000 <= 0x000f_ffff_ffff_f000,
        va & 0xfff <= 0xfff,
        (va >> 12u64) & 0x1ff < 512,
        (va >> 21u64) & 0x1ff < 512,
        (va >> 30u64) & 0x1ff < 512,
        (va >> 39u64) & 0x1ff < 512,
{
    assert(e & 0x000f_ffff_ffff_f000 <= 0x000f_ffff_ffff_f000 && va & 0xfff <= 0xfff)
        by (bit_vector);
    assert((va >> 12u64) & 0x1ff < 512 && (va >> 21u64) & 0x1ff < 512 && (va >> 30u64) & 0x1ff
        < 512 && (va >> 39u64) & 0x1ff < 512) by (bit_vector);
}

/// What survives a step that keeps every present entry: the tables on each
/// walk that gets through, and every translation that exists.
pub(crate) proof fn lemma_keeps_walks(m1: Map<u64, Seq<u64>>, m2: Map<u64, Seq<u64>>, root: u64, va: u64, level: nat)
    requires
        keeps_present_entries(m1, m2),
        table_at(m1, root, va, level) is Some,
    ensures
        table_at(m2, root, va, level) == table_at(m1, root, va, level),
    decreases 4 - level,
{
    if level < 4 {
        lemma_keeps_walks(m1, m2, root, va, level + 1);
        let u = table_at(m1, root, va, level + 1)->0;
        assert(entry_present(table_entry(m1, u, table_index(va, level + 1))));
    }
}

proof fn lemma_keeps_translations(m1: Map<u64, Seq<u64>>, m2: Map<u64, Seq<u64>>, root: u64)
    requires
        keeps_present_entries(m1, m2),
    ensures
        forall|va: u64| #[trigger] translation(m1, root, va) is Some ==> translation(m2, root, va)
            == translation(m1, root, va),
{
    assert forall|va: u64| #[trigger] translation(m1, root, va) is Some implies translation(
        m2,
        root,
        va,
    ) == translation(m1, root, va) by {
        lemma_keeps_walks(m1, m2, root, va, 1);
        let t = table_at(m1, root, va, 1)->0;
        assert(entry_present(table_entry(m1, t, table_index(va, 1))));
    }
}

/// The window onto physical memory through which page tables are read and
/// written, one table of 512 entries per frame.
pub struct PhysicalMemory {
    tables: HashMap<u64, Vec<u64>>,
}

impl PhysicalMemory {
    /// The tables written so far, by the physical address of their frame.
    pub closed spec fn tables(&self) -> Map<u64, Seq<u64>> {
        Map::new(|t: u64| self.tables@.contains_key(t), |t: u64| self.tables@[t]@)
    }

    pub closed spec fn wf(&self) -> bool {
        forall|t: u64| #[trigger] self.tables@.contains_key(t) ==> self.tables@[t]@.len() == 512
    }

    /// Every table of well-formed memory holds 512 entries.
    pub proof fn lemma_wf(&self)
        requires
            self.wf(),
        ensures
            forall|t: u64| #[trigger] self.tables().contains_key(t) ==> self.tables()[t].len() == 512,
    {
    }

    /// Memory in which nothing has been written yet.
    pub fn new() -> (m: PhysicalMemory)
        ensures
            m.wf(),
            m.tables() == Map::<u64, Seq<u64>>::empty(),
    {
        let m = PhysicalMemory { tables: HashMap::new() };
        assert(m.tables() =~= Map::<u64, Seq<u64>>::empty());
        m
    }

    /// Entry `i` of the table at `t`.
    pub fn entry(&self, t: u64, i: u64) -> (e: u64)
        requires
            self.wf(),
        ensures
            e == table_entry(self.tables(), t, i),
    {
        match self.tables.get(&t) {
            Some(v) => {
                if i < v.len() as u64 {
                    v[i as usize]
                } else {
                    0
                }
            },
            None => 0,
        }
    }

    /// Writes entry `i` of the table at `t`.
    pub fn set_entry(&mut self, t: u64, i: u64, e: u64)
        requires
            old(self).wf(),
            i < ENTRIES_PER_TABLE,
        ensures
            final(self).wf(),
            final(self).tables() == old(self).tables().insert(
                t,
                (if old(self).tables().contains_key(t) {
                    old(self).tables()[t]
                } else {
                    zero_table()
                }).update(i as int, e),
            ),
    {
        let mut v = match self.tables.remove(&t) {
            Some(v) => v,
            None => zeroed_table(),
        };
        v.set(i as usize, e);
        self.tables.insert(t, v);
        assert(final(self).tables() =~= old(self).tables().insert(
            t,
            (if old(self).tables().contains_key(t) {
                old(self).tables()[t]
            } else {
                zero_table()
            }).update(i as int, e),
        ));
    }

    /// Fills the table at `t` with empty entries.
    pub fn zero_table(&mut self, t: u64)
        requires
            old(self).wf(),
        ensures
            final(self).wf(),
            final(self).tables() == old(self).tables().insert(t, zero_table()),
    {
        self.tables.insert(t, zeroed_table());
        assert(final(self).tables() =~= old(self).tables().insert(t, zero_table()));
    }
}

fn zeroed_table() -> (v: Vec<u64>)
    ensures
        v@ == zero_table(),
{
    let mut v: Vec<u64> = Vec::new();
    while v.len() < 512
        invariant
            v@.len() <= 512,
            forall|j: int| 0 <= j < v@.len() ==> v@[j] == 0,
        decreases 512 - v@.len(),
    {
        v.push(0);
    }
    assert(v@ =~= zero_table());
    v
}

} // verus!
