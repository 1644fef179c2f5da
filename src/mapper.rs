//! Translating virtual addresses through the active hierarchy and installing
//! new mappings in it.

use std::collections::HashMap;
use vstd::prelude::*;
use crate::frame::{
    usable_frames, lemma_allocator_wf, lemma_frames_unique_aligned_usable, FrameAllocator,
    PHYS_ADDR_LIMIT,
};
use crate::paging::{
    canonical, entry_addr, entry_present, frame_in_use, keeps_present_entries, lemma_entry_bits,
    lemma_keeps_walks, make_entry, page_offset, table_at, table_entry, table_index, translation,
    valid_phys, zero_table, PhysicalMemory, ENTRY_ADDR_MASK, PRESENT, WRITABLE,
};

verus! {

broadcast use vstd::std_specs::hash::group_hash_axioms;

/// Relies on `x86_64::VirtAddr::try_new`, which accepts an address exactly
/// when its bits 48..64 repeat bit 47.
#[verifier::external_body]
fn is_canonical(addr: u64) -> (r: bool)
    ensures
        r == canonical(addr),
{
    x86_64::VirtAddr::try_new(addr).is_ok()
}

/// Relies on `x86_64::PhysAddr::try_new`, which accepts an address exactly
/// when its bits 52..64 are zero.
#[verifier::external_body]
fn is_valid_phys(addr: u64) -> (r: bool)
    ensures
        r == valid_phys(addr),
{
    x86_64::PhysAddr::try_new(addr).is_ok()
}

/// Errors of `Mapper::map`.
#[derive(Clone, Copy, Debug, PartialEq, Eq, Structural)]
pub enum MapError {
    /// A table needed on the way down could not be had: no frame was left.
    FrameAllocationFailed,
    /// The page already has a mapping, which is left as it is.
    AlreadyMapped,
}

/// A 4 KiB page of virtual address space, named by its canonical, aligned
/// start address.
pub struct Page {
    start: u64,
}

pub open spec fn page_start_of(va: u64) -> u64 {
    va & 0xffff_ffff_ffff_f000
}

impl Page {
    pub closed spec fn start(&self) -> u64 {
        self.start
    }

    pub closed spec fn wf(&self) -> bool {
        &&& canonical(self.start)
        &&& self.start % 4096 == 0
    }

    /// The page that holds `va`, if `va` is a canonical address.
    pub fn containing_address(va: u64) -> (r: Option<Page>)
        ensures
            r is Some <==> canonical(va),
            r matches Some(p) ==> {
                &&& p.wf()
                &&& p.start() == page_start_of(va)
                &&& p.start() <= va < p.start() + 4096
            },
    {
        if !is_canonical(va) {
            return None;
        }
        let start = va & 0xffff_ffff_ffff_f000;
        assert(start % 4096 == 0 && start <= va && va - start < 4096 && (va < 0x8000_0000_0000
            ==> start < 0x8000_0000_0000) && (va >= 0xffff_8000_0000_0000 ==> start
            >= 0xffff_8000_0000_0000)) by (bit_vector)
            requires
                start == va & 0xffff_ffff_ffff_f000,
        ;
        Some(Page { start })
    }

    pub fn start_address(&self) -> (r: u64)
        ensures
            r == self.start(),
    {
        self.start
    }
}

/// How many tables a mapping of `va` still lacks below the top level: the
/// walk reaches the tables of the levels above that count and no lower.
pub open spec fn missing_tables(m: Map<u64, Seq<u64>>, root: u64, va: u64) -> nat {
    if table_at(m, root, va, 1) is Some {
        0
    } else if table_at(m, root, va, 2) is Some {
        1
    } else if table_at(m, root, va, 3) is Some {
        2
    } else {
        3
    }
}

/// The word stored at physical address `pa`; memory never written reads as
/// zero.
pub open spec fn word_at(data: Map<u64, u64>, pa: u64) -> u64 {
    if data.contains_key(pa) {
        data[pa]
    } else {
        0
    }
}

/// Frames that `a` is still to hand out are not used by the hierarchy of `m`.
pub open spec fn frames_unused(m: Mapper, a: FrameAllocator) -> bool {
    forall|k: int|
        a.issued() <= k < usable_frames(a.memory_map()).len() ==> !frame_in_use(
            m.tables(),
            m.root(),
            #[trigger] usable_frames(a.memory_map())[k] as u64,
        )
}

/// A walk that stops at some level reaches no lower level.
proof fn lemma_walk_stops(m: Map<u64, Seq<u64>>, root: u64, va: u64, level: nat)
    requires
        1 <= level <= 4,
        table_at(m, root, va, level) is None,
    ensures
        forall|l: nat| 1 <= l <= level ==> #[trigger] table_at(m, root, va, l) is None,
    decreases level,
{
    assert forall|l: nat| 1 <= l <= level implies #[trigger] table_at(m, root, va, l) is None by {
        lemma_walk_stops_at(m, root, va, level, l);
    }
}

proof fn lemma_walk_stops_at(m: Map<u64, Seq<u64>>, root: u64, va: u64, level: nat, l: nat)
    requires
        1 <= l <= level <= 4,
        table_at(m, root, va, level) is None,
    ensures
        table_at(m, root, va, l) is None,
    decreases level - l,
{
    if l < level {
        lemma_walk_stops_at(m, root, va, level, l + 1);
    }
}

/// Zeroing the table at `n` puts no frame but `n` into use.
proof fn lemma_in_use_after_zero(m: Map<u64, Seq<u64>>, root: u64, n: u64, g: u64)
    requires
        frame_in_use(m.insert(n, zero_table()), root, g),
    ensures
        g == n || frame_in_use(m, root, g),
{
    let m2 = m.insert(n, zero_table());
    if g != root && !m2.contains_key(g) {
        let (t, i) = choose|t: u64, i: u64|
            #[trigger] entry_present(table_entry(m2, t, i)) && entry_addr(table_entry(m2, t, i))
                == g;
        if t == n {
            lemma_zero_entry();
        } else {
            assert(table_entry(m, t, i) == table_entry(m2, t, i));
        }
    }
}

/// An empty entry, and every entry of a zeroed table, is not present.
proof fn lemma_zero_entry()
    ensures
        !entry_present(0),
        forall|m: Map<u64, Seq<u64>>, t: u64, i: u64|
            m.contains_key(t) && m[t] == zero_table() ==> #[trigger] table_entry(m, t, i) == 0,
{
    assert(0u64 & 1 == 0) by (bit_vector);
}

/// Writing entry `i` of the table at `t` puts no frame but `t` and the
/// entry's target into use.
proof fn lemma_in_use_after_set(m: Map<u64, Seq<u64>>, root: u64, t: u64, i: u64, e: u64, g: u64)
    requires
        i < 512,
        forall|t: u64| #[trigger] m.contains_key(t) ==> m[t].len() == 512,
        frame_in_use(
            m.insert(
                t,
                (if m.contains_key(t) {
                    m[t]
                } else {
                    zero_table()
                }).update(i as int, e),
            ),
            root,
            g,
        ),
    ensures
        g == t || g == entry_addr(e) || frame_in_use(m, root, g),
{
    let m2 = m.insert(
        t,
        (if m.contains_key(t) {
            m[t]
        } else {
            zero_table()
        }).update(i as int, e),
    );
    if g != root && !m2.contains_key(g) {
        let (t2, i2) = choose|t2: u64, i2: u64|
            #[trigger] entry_present(table_entry(m2, t2, i2)) && entry_addr(table_entry(m2, t2, i2))
                == g;
        if t2 == t && i2 != i {
            if !m.contains_key(t) {
                lemma_zero_entry();
                assert(table_entry(m2, t2, i2) == 0);
            } else {
                assert(table_entry(m, t2, i2) == table_entry(m2, t2, i2));
            }
        } else if t2 != t {
            assert(table_entry(m, t2, i2) == table_entry(m2, t2, i2));
        }
    }
}

/// The entry that points to `addr` with `flags`, present.
fn make_entry_exec(addr: u64, flags: u64) -> (e: u64)
    ensures
        e == make_entry(addr, flags),
{
    addr | (flags & 0x8000_0000_0000_0fff) | 1
}

/// What `map` of the page at `va` does, from mapper `m0` and allocator `a0`
/// to `m1` and `a1`, returning `r`. Present entries are never overwritten,
/// so every existing mapping stays. A page that is mapped is refused with
/// nothing changed. Otherwise the page gets the allocator's next frame,
/// after which each missing table takes one frame more; where the
/// allocator runs out first, the map fails having used every frame.
pub open spec fn map_outcome(
    m0: Mapper,
    a0: FrameAllocator,
    va: u64,
    m1: Mapper,
    a1: FrameAllocator,
    r: Result<u64, MapError>,
) -> bool {
    let needed = a0.issued() + 1 + missing_tables(m0.tables(), m0.root(), va);
    let frames = usable_frames(a0.memory_map());
    &&& a1.memory_map() == a0.memory_map()
    &&& m1.root() == m0.root()
    &&& m1.offset() == m0.offset()
    &&& m1.data() == m0.data()
    &&& keeps_present_entries(m0.tables(), m1.tables())
    &&& m0.translate_spec(va) is Some ==> {
        &&& r == Err::<u64, MapError>(MapError::AlreadyMapped)
        &&& m1.tables() == m0.tables()
        &&& a1.issued() == a0.issued()
    }
    &&& m0.translate_spec(va) is None && needed <= frames.len() ==> {
        &&& r == Ok::<u64, MapError>(frames[a0.issued() as int] as u64)
        &&& m1.translate_spec(va) == Some(r->Ok_0)
        &&& a1.issued() == needed
    }
    &&& m0.translate_spec(va) is None && needed > frames.len() ==> {
        &&& r == Err::<u64, MapError>(MapError::FrameAllocationFailed)
        &&& a1.issued() == frames.len()
    }
}

/// The mapper over the active page-table hierarchy, together with the data
/// words stored in the frames it maps.
pub struct Mapper {
    physical_memory_offset: u64,
    root: u64,
    memory: PhysicalMemory,
    data: HashMap<u64, u64>,
}

impl Mapper {
    pub closed spec fn tables(&self) -> Map<u64, Seq<u64>> {
        self.memory.tables()
    }

    /// Physical address of the top-level table.
    pub closed spec fn root(&self) -> u64 {
        self.root
    }

    pub closed spec fn offset(&self) -> u64 {
        self.physical_memory_offset
    }

    /// Data words, by physical address.
    pub closed spec fn data(&self) -> Map<u64, u64> {
        self.data@
    }

    pub closed spec fn wf(&self) -> bool {
        &&& self.memory.wf()
        &&& self.root % 4096 == 0
        &&& valid_phys(self.root)
    }

    /// Where `va` leads, if anywhere.
    pub open spec fn translate_spec(&self, va: u64) -> Option<u64> {
        translation(self.tables(), self.root(), va)
    }

    /// A mapper over the hierarchy whose top-level table is at `root` (as the
    /// page-table base register gives it), with all physical memory visible
    /// at `physical_memory_offset`. `None` where the offset is not a canonical
    /// address, `root` is not an aligned physical address, or the top-level
    /// table would lie at no canonical virtual address.
    pub fn init(physical_memory_offset: u64, root: u64, memory: PhysicalMemory) -> (r: Option<
        Mapper,
    >)
        requires
            memory.wf(),
        ensures
            r is Some <==> {
                &&& canonical(physical_memory_offset)
                &&& valid_phys(root)
                &&& root % 4096 == 0
                &&& physical_memory_offset + root <= u64::MAX
                &&& canonical((physical_memory_offset + root) as u64)
            },
            r matches Some(m) ==> {
                &&& m.wf()
                &&& m.root() == root
                &&& m.offset() == physical_memory_offset
                &&& m.tables() == memory.tables()
                &&& m.data() == Map::<u64, u64>::empty()
            },
    {
        if !is_canonical(physical_memory_offset) || !is_valid_phys(root) || root % 4096 != 0 {
            return None;
        }
        match physical_memory_offset.checked_add(root) {
            Some(v) => {
                if !is_canonical(v) {
                    return None;
                }
            },
            None => {
                return None;
            },
        }
        let data: HashMap<u64, u64> = HashMap::new();
        Some(Mapper { physical_memory_offset, root, memory, data })
    }

    /// Virtual address at which the top-level table can be read.
    pub fn level_4_table_address(&self) -> (r: u64)
        requires
            self.offset() + self.root() <= u64::MAX,
        ensures
            r == self.offset() + self.root(),
    {
        self.physical_memory_offset + self.root
    }

    /// The page-table memory the mapper works on.
    pub fn memory(&self) -> (r: &PhysicalMemory)
        ensures
            r.tables() == self.tables(),
    {
        &self.memory
    }

    /// The physical address `va` translates to, or `None` where some level
    /// of the walk has no present entry for it (or `va` is not canonical).
    pub fn translate(&self, va: u64) -> (r: Option<u64>)
        requires
            self.wf(),
        ensures
            r == self.translate_spec(va),
    {
        if !is_canonical(va) {
            return None;
        }
        let mut t = self.root;
        let mut level: u64 = 4;
        while level > 1
            invariant
                1 <= level <= 4,
                self.wf(),
                canonical(va),
                table_at(self.tables(), self.root(), va, level as nat) == Some(t),
            decreases level,
        {
            let shift: u64 = 12 + 9 * (level - 1);
            let e = self.memory.entry(t, (va >> shift) & 0x1ff);
            if e & 1 != 1 {
                proof {
                    lemma_walk_stops(self.tables(), self.root(), va, (level - 1) as nat);
                }
                return None;
            }
            t = e & ENTRY_ADDR_MASK;
            level = level - 1;
        }
        let e = self.memory.entry(t, (va >> 12u64) & 0x1ff);
        if e & 1 != 1 {
            return None;
        }
        proof {
            assert(e & 0x000f_ffff_ffff_f000 <= 0x000f_ffff_ffff_f000 && va & 0xfff <= 0xfff)
                by (bit_vector);
        }
        Some((e & ENTRY_ADDR_MASK) + (va & 0xfff))
    }

    /// Maps `page` to a fresh frame from `alloc`, with `flags` on the last
    /// entry, and returns that frame. The frame is taken first; each table
    /// missing on the way down then takes the next frame and is zeroed and
    /// linked as present and writable. A page that is already mapped is
    /// refused and nothing changes. No present entry is ever overwritten, so
    /// every existing mapping stays as it was.
    ///
    /// The caller vouches, through `frames_unused`, that the frames still to
    /// come from `alloc` are not part of the hierarchy: the memory map marks
    /// usable only memory that nothing uses.
    pub fn map(&mut self, page: &Page, flags: u64, alloc: &mut FrameAllocator) -> (r: Result<
        u64,
        MapError,
    >)
        requires
            old(self).wf(),
            old(alloc).wf(),
            page.wf(),
            frames_unused(*old(self), *old(alloc)),
        ensures
            final(self).wf(),
            final(alloc).wf(),
            frames_unused(*final(self), *final(alloc)),
            map_outcome(*old(self), *old(alloc), page.start(), *final(self), *final(alloc), r),
    {
        let ghost m0 = self.tables();
        let ghost root = self.root;
        let ghost frames = usable_frames(alloc.memory_map());
        let ghost i0 = alloc.issued();
        let ghost va = page.start;
        let ghost k = missing_tables(m0, root, va);
        proof {
            lemma_allocator_wf(*alloc);
            lemma_frames_unique_aligned_usable(alloc.memory_map());
        }
        if self.translate(page.start).is_some() {
            return Err(MapError::AlreadyMapped);
        }
        proof {
            lemma_allocator_wf(*alloc);
        }
        let frame = match alloc.allocate_frame() {
            Ok(f) => f,
            Err(_) => {
                return Err(MapError::FrameAllocationFailed);
            },
        };
        proof {
            assert(frames[i0 as int] == frame);
        }
        let mut t = self.root;
        let mut level: u64 = 4;
        let ghost mut fresh = false;
        while level > 1
            invariant
                1 <= level <= 4,
                self.wf(),
                alloc.wf(),
                page.wf(),
                va == page.start(),
                root == self.root(),
                root == old(self).root(),
                m0 == old(self).tables(),
                i0 == old(alloc).issued(),
                frames == usable_frames(old(alloc).memory_map()),
                self.offset() == old(self).offset(),
                self.data() == old(self).data(),
                alloc.memory_map() == old(alloc).memory_map(),
                frames == usable_frames(alloc.memory_map()),
                forall|a: int, b: int|
                    0 <= a < frames.len() && 0 <= b < frames.len() && a != b ==> frames[a]
                        != frames[b],
                forall|n: int|
                    0 <= n < frames.len() ==> #[trigger] frames[n] % 4096 == 0 && 0 <= frames[n]
                        && frames[n] + 4096 <= PHYS_ADDR_LIMIT,
                frames_unused(*self, *alloc),
                keeps_present_entries(m0, self.tables()),
                frame_in_use(self.tables(), root, t),
                table_at(self.tables(), root, va, level as nat) == Some(t),
                fresh <==> level <= k,
                !fresh ==> self.tables() == m0,
                fresh ==> self.tables().contains_key(t) && self.tables()[t] == zero_table(),
                alloc.issued() == i0 + 1 + (if level <= k { k - level + 1 } else { 0int }),
                k == missing_tables(m0, root, va),
                translation(m0, root, va) is None,
                frame == frames[i0 as int],
                i0 < frames.len(),
            decreases level,
        {
            let shift: u64 = 12 + 9 * (level - 1);
            let start = page.start;
            let idx = (start >> shift) & 0x1ff;
            proof {
                assert((start >> shift) & 0x1ff < 512) by (bit_vector);
            }
            let e = self.memory.entry(t, idx);
            if e & 1 == 1 {
                proof {
                    if fresh {
                        lemma_zero_entry();
                    }
                    if level - 1 <= k {
                        lemma_walk_stops(m0, root, va, (level - 1) as nat);
                    }
                    assert(frame_in_use(self.tables(), root, e & ENTRY_ADDR_MASK));
                }
                t = e & ENTRY_ADDR_MASK;
            } else {
                let ghost m1 = self.tables();
                let ghost i1 = alloc.issued();
                proof {
                    self.memory.lemma_wf();
                    lemma_allocator_wf(*alloc);
                    if !fresh {
                        assert(level - 1 <= k);
                    }
                }
                let n = match alloc.allocate_frame() {
                    Ok(n) => n,
                    Err(_) => {
                        return Err(MapError::FrameAllocationFailed);
                    },
                };
                proof {
                    assert(frames[i1 as int] == n);
                    assert(!frame_in_use(m1, root, n));
                    lemma_entry_bits(n, PRESENT | WRITABLE);
                }
                self.memory.zero_table(n);
                let ghost m2 = self.tables();
                proof {
                    self.memory.lemma_wf();
                    lemma_zero_entry();
                    assert forall|tt: u64, ii: u64|
                        entry_present(#[trigger] table_entry(m1, tt, ii)) implies table_entry(
                        m2,
                        tt,
                        ii,
                    ) == table_entry(m1, tt, ii) by {
                        if tt == n {
                            assert(table_entry(m1, tt, ii) == 0);
                        }
                    }
                }
                self.memory.set_entry(t, idx, make_entry_exec(n, PRESENT | WRITABLE));
                let ghost m3 = self.tables();
                proof {
                    assert forall|tt: u64, ii: u64|
                        entry_present(#[trigger] table_entry(m2, tt, ii)) implies table_entry(
                        m3,
                        tt,
                        ii,
                    ) == table_entry(m2, tt, ii) by {
                        if tt == t && ii == idx {
                        } else if tt == t && !m2.contains_key(t) {
                            lemma_zero_entry();
                        }
                    }
                    assert forall|tt: u64, ii: u64|
                        entry_present(#[trigger] table_entry(m0, tt, ii)) implies table_entry(
                        m3,
                        tt,
                        ii,
                    ) == table_entry(m0, tt, ii) by {
                        assert(table_entry(m1, tt, ii) == table_entry(m0, tt, ii));
                        assert(table_entry(m2, tt, ii) == table_entry(m1, tt, ii));
                    }
                    assert forall|kk: int|
                        alloc.issued() <= kk < frames.len() implies !frame_in_use(
                        m3,
                        root,
                        #[trigger] frames[kk] as u64,
                    ) by {
                        let g = frames[kk] as u64;
                        assert(frames[kk] != frames[i1 as int]);
                        assert(!frame_in_use(m1, root, g));
                        if frame_in_use(m3, root, g) {
                            lemma_in_use_after_set(
                                m2,
                                root,
                                t,
                                idx,
                                make_entry(n, PRESENT | WRITABLE),
                                g,
                            );
                            if g != t && g != n {
                                lemma_in_use_after_zero(m1, root, n, g);
                            }
                        }
                    }
                    lemma_keeps_walks(m1, m2, root, va, level as nat);
                    lemma_keeps_walks(m2, m3, root, va, level as nat);
                    assert(table_entry(m3, t, idx) == make_entry(n, PRESENT | WRITABLE));
                    assert(m3.contains_key(n));
                    assert(m3[n] == zero_table());
                    if level - 1 > k {
                        assert(!fresh);
                        assert(table_at(m0, root, va, (level - 1) as nat) is Some);
                    }
                }
                t = n;
                proof {
                    fresh = true;
                }
            }
            level = level - 1;
        }
        let start = page.start;
        let idx = (start >> 12u64) & 0x1ff;
        proof {
            assert((start >> 12u64) & 0x1ff < 512) by (bit_vector);
            lemma_zero_entry();
            lemma_entry_bits(frame, flags);
        }
        let ghost m1 = self.tables();
        proof {
            self.memory.lemma_wf();
            lemma_allocator_wf(*alloc);
        }
        self.memory.set_entry(t, idx, make_entry_exec(frame, flags));
        let ghost m2 = self.tables();
        proof {
            assert(!entry_present(table_entry(m1, t, idx)));
            assert forall|tt: u64, ii: u64|
                entry_present(#[trigger] table_entry(m1, tt, ii)) implies table_entry(m2, tt, ii)
                == table_entry(m1, tt, ii) by {
                if tt == t && ii != idx && !m1.contains_key(t) {
                    lemma_zero_entry();
                }
            }
            assert forall|tt: u64, ii: u64|
                entry_present(#[trigger] table_entry(m0, tt, ii)) implies table_entry(m2, tt, ii)
                == table_entry(m0, tt, ii) by {
                assert(table_entry(m1, tt, ii) == table_entry(m0, tt, ii));
            }
            assert forall|kk: int|
                alloc.issued() <= kk < frames.len() implies !frame_in_use(
                m2,
                root,
                #[trigger] frames[kk] as u64,
            ) by {
                let g = frames[kk] as u64;
                assert(frames[kk] != frames[i0 as int]);
                assert(!frame_in_use(m1, root, g));
                if frame_in_use(m2, root, g) {
                    lemma_in_use_after_set(m1, root, t, idx, make_entry(frame, flags), g);
                }
            }
            lemma_keeps_walks(m1, m2, root, va, 1);
            assert(page_offset(va) == 0) by (bit_vector)
                requires
                    va % 4096 == 0,
            ;
        }
        Ok(frame)
    }

    /// Stores the 64-bit word `v` at `va` through the mapping of `va`;
    /// `false`, and nothing stored, where `va` is not mapped.
    pub fn write_u64(&mut self, va: u64, v: u64) -> (r: bool)
        requires
            old(self).wf(),
            va % 8 == 0,
        ensures
            final(self).wf(),
            final(self).tables() == old(self).tables(),
            final(self).root() == old(self).root(),
            final(self).offset() == old(self).offset(),
            r == old(self).translate_spec(va) is Some,
            old(self).translate_spec(va) matches Some(p) ==> final(self).data() == old(
                self,
            ).data().insert(p, v),
            old(self).translate_spec(va) is None ==> final(self).data() == old(self).data(),
    {
        match self.translate(va) {
            Some(p) => {
                self.data.insert(p, v);
                true
            },
            None => false,
        }
    }

    /// The 64-bit word at `va`, read through the mapping of `va`.
    pub fn read_u64(&self, va: u64) -> (r: Option<u64>)
        requires
            self.wf(),
            va % 8 == 0,
        ensures
            r == match self.translate_spec(va) {
                Some(p) => Some(word_at(self.data(), p)),
                None => None,
            },
    {
        match self.translate(va) {
            Some(p) => {
                match self.data.get(&p) {
                    Some(w) => Some(*w),
                    None => Some(0),
                }
            },
            None => None,
        }
    }
}

/// Addresses that select the same entry at every level walk alike.
proof fn lemma_same_indices_same_walk(
    m: Map<u64, Seq<u64>>,
    root: u64,
    v1: u64,
    v2: u64,
    level: nat,
)
    requires
        1 <= level <= 4,
        forall|l: nat| 1 <= l <= 4 ==> #[trigger] table_index(v1, l) == table_index(v2, l),
    ensures
        table_at(m, root, v1, level) == table_at(m, root, v2, level),
    decreases 4 - level,
{
    if level < 4 {
        lemma_same_indices_same_walk(m, root, v1, v2, level + 1);
        assert(table_index(v1, level + 1) == table_index(v2, level + 1));
    }
}

/// Once a page leads to frame `f`, every address `off` bytes into the page
/// translates to `f + off`.
proof fn lemma_page_translates_to_frame(m: Mapper, page: Page, f: u64, off: u64)
    requires
        page.wf(),
        m.translate_spec(page.start()) == Some(f),
        off < 4096,
    ensures
        m.translate_spec((page.start() + off) as u64) == Some((f + off) as u64),
{
    let s = page.start();
    let v = (s + off) as u64;
    assert(s + off <= u64::MAX && canonical(v) && page_offset(s) == 0 && page_offset(v) == off
        && (v >> 12u64) & 0x1ff == (s >> 12u64) & 0x1ff && (v >> 21u64) & 0x1ff == (s >> 21u64)
        & 0x1ff && (v >> 30u64) & 0x1ff == (s >> 30u64) & 0x1ff && (v >> 39u64) & 0x1ff == (s
        >> 39u64) & 0x1ff) by (bit_vector)
        requires
            s % 4096 == 0,
            s < 0x8000_0000_0000 || s >= 0xffff_8000_0000_0000,
            off < 4096,
            v == (s + off) as u64,
    ;
    assert forall|l: nat| 1 <= l <= 4 implies #[trigger] table_index(v, l) == table_index(s, l) by {
        if l == 1 {
        } else if l == 2 {
        } else if l == 3 {
        } else {
        }
    }
    lemma_same_indices_same_walk(m.tables(), m.root(), v, s, 1);
}

/// Translate/map round trip: when `map` of a page succeeds with frame `f`,
/// the allocator's next frame, every address `off` bytes into the page then
/// translates to `f + off`.
pub proof fn lemma_map_round_trip(
    m0: Mapper,
    a0: FrameAllocator,
    page: Page,
    m1: Mapper,
    a1: FrameAllocator,
    f: u64,
    off: u64,
)
    requires
        page.wf(),
        map_outcome(m0, a0, page.start(), m1, a1, Ok(f)),
        off < 4096,
    ensures
        f == usable_frames(a0.memory_map())[a0.issued() as int] as u64,
        m1.translate_spec((page.start() + off) as u64) == Some((f + off) as u64),
{
    lemma_page_translates_to_frame(m1, page, f, off);
}

/// Re-map rejection: after a `map` of a page succeeds, a second `map` of the
/// same page fails with `AlreadyMapped`, takes no frame and changes no
/// table, and the page still leads to the first frame.
pub proof fn lemma_remap_rejected(
    m0: Mapper,
    a0: FrameAllocator,
    va: u64,
    m1: Mapper,
    a1: FrameAllocator,
    r1: Result<u64, MapError>,
    m2: Mapper,
    a2: FrameAllocator,
    r2: Result<u64, MapError>,
)
    requires
        map_outcome(m0, a0, va, m1, a1, r1),
        r1 is Ok,
        map_outcome(m1, a1, va, m2, a2, r2),
    ensures
        r2 == Err::<u64, MapError>(MapError::AlreadyMapped),
        m2.tables() == m1.tables(),
        a2.issued() == a1.issued(),
        m2.translate_spec(va) == Some(r1->Ok_0),
{
}

/// Raw write/read round trip: after `write_u64` stores `v` through a mapped
/// address, `read_u64` at that address gives `v` back.
pub proof fn lemma_write_then_read(before: Mapper, after: Mapper, va: u64, v: u64)
    requires
        before.translate_spec(va) is Some,
        after.tables() == before.tables(),
        after.root() == before.root(),
        after.data() == before.data().insert(before.translate_spec(va)->0, v),
    ensures
        after.translate_spec(va) == before.translate_spec(va),
        word_at(after.data(), after.translate_spec(va)->0) == v,
{
}

} // verus!
