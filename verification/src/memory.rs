//! Physical frame allocator and 4-level page-table manager.
//!
//! The allocator keeps the pool of free 4096-byte frames as a stack of
//! frame addresses: `allocate_page` pops, `deallocate_page` pushes, so a
//! freed frame is the first one handed out again. `build_freelist` fills
//! the stack from the boot memory map, taking only the regions tagged
//! usable.

use std::collections::HashMap;
use vstd::prelude::*;

verus! {

broadcast use vstd::std_specs::hash::group_hash_axioms;

/// Size in bytes of one physical frame, the allocator's unit of currency.
pub const FRAME_SIZE: u64 = 4096;

/// Failure kinds of the memory subsystems.
///
/// `OutOfPages` is recoverable (the pool is exhausted); `NotPresent` is an
/// ordinary lookup outcome; `InvalidMap` flags a caller handing a non-root
/// node where a level-4 root is demanded; `MapTooDeep` flags a walk that
/// descended past the leaf level.
#[derive(Debug, Clone, Copy, PartialEq, Eq, Structural)]
pub enum MemoryError {
    OutOfPages,
    NotPresent,
    InvalidMap,
    MapTooDeep,
}

impl MemoryError {
    /// Short description of the error, for the surrounding code to print.
    pub fn description(&self) -> (r: &'static str)
        ensures
            *self == MemoryError::OutOfPages ==> r@ == "out of memory pages"@,
            *self == MemoryError::NotPresent ==> r@ == "mapping not present"@,
            *self == MemoryError::InvalidMap ==> r@ == "wrong page map used"@,
            *self == MemoryError::MapTooDeep ==> r@ == "page mapped too far"@,
    {
        match self {
            MemoryError::OutOfPages => "out of memory pages",
            MemoryError::NotPresent => "mapping not present",
            MemoryError::InvalidMap => "wrong page map used",
            MemoryError::MapTooDeep => "page mapped too far",
        }
    }
}

/// The direct-map offset established once during the boot handoff: any
/// physical address `p` is also reachable at virtual address `p + offset`.
///
/// Holding a value of this type is the evidence that the offset has been
/// set; building the frame pool demands one, so no allocator can exist
/// before the offset does.
#[derive(Debug, Clone, Copy, PartialEq, Eq, Structural)]
pub struct DirectMap {
    pub offset: u64,
}

impl DirectMap {
    /// Record the offset the boot protocol handed over.
    pub fn new(offset: u64) -> (dm: DirectMap)
        ensures
            dm.offset == offset,
    {
        DirectMap { offset }
    }

    /// The virtual alias of a physical address under this direct map.
    pub fn virt_of(&self, paddr: u64) -> (v: u64)
        requires
            paddr + self.offset <= u64::MAX,
        ensures
            v == paddr + self.offset,
    {
        paddr + self.offset
    }
}

/// Usability tag of one memory-map region.
#[derive(Debug, Clone, Copy, PartialEq, Eq, Structural)]
pub enum RegionKind {
    Usable,
    Reserved,
}

/// One entry of the boot memory map.
#[derive(Debug, Clone, Copy, PartialEq, Eq, Structural)]
pub struct MemRegion {
    pub base: u64,
    pub len: u64,
    pub kind: RegionKind,
}

/// Whether a region feeds the allocator.
pub open spec fn usable(r: MemRegion) -> bool {
    r.kind == RegionKind::Usable
}

/// The frames of one usable region: `len / 4096` whole frames from `base` up.
pub open spec fn region_frames(base: u64, len: u64) -> Seq<u64> {
    Seq::new((len as int / FRAME_SIZE as int) as nat, |i: int| (base as int + FRAME_SIZE as int * i) as u64)
}

/// All frames the allocator is built from: those of every usable region,
/// in memory-map order.
pub open spec fn frames_of_regions(rs: Seq<MemRegion>) -> Seq<u64>
    decreases rs.len(),
{
    if rs.len() == 0 {
        Seq::empty()
    } else {
        frames_of_regions(rs.drop_last()) + (if usable(rs.last()) {
            region_frames(rs.last().base, rs.last().len)
        } else {
            Seq::empty()
        })
    }
}

/// Total bytes of the usable regions.
pub open spec fn total_usable_bytes(rs: Seq<MemRegion>) -> int
    decreases rs.len(),
{
    if rs.len() == 0 {
        0
    } else {
        total_usable_bytes(rs.drop_last()) + (if usable(rs.last()) {
            rs.last().len as int
        } else {
            0
        })
    }
}

/// What the allocator asks of the boot memory map: usable regions are
/// frame-aligned, a whole number of frames, in range, and do not overlap
/// one another.
pub open spec fn regions_wf(rs: Seq<MemRegion>) -> bool {
    &&& forall|i: int|
        0 <= i < rs.len() && usable(#[trigger] rs[i]) ==> {
            &&& rs[i].base % FRAME_SIZE == 0
            &&& rs[i].len % FRAME_SIZE == 0
            &&& rs[i].base + rs[i].len <= u64::MAX
        }
    &&& forall|i: int, j: int|
        0 <= i < rs.len() && 0 <= j < rs.len() && i != j && usable(#[trigger] rs[i]) && usable(
            #[trigger] rs[j],
        ) ==> rs[i].base + rs[i].len <= rs[j].base || rs[j].base + rs[j].len <= rs[i].base
}

/// A well-formed frame pool: every frame is frame-aligned and no frame is
/// listed twice. A frame is either in the pool or in active use, never
/// both; this is the allocator's whole bookkeeping.
pub open spec fn freelist_wf(s: Seq<u64>) -> bool {
    &&& forall|i: int| 0 <= i < s.len() ==> #[trigger] s[i] % FRAME_SIZE == 0
    &&& forall|i: int, j: int| 0 <= i < j < s.len() ==> s[i] != s[j]
}

/// The pool of free physical frames, kept as a stack of frame addresses.
pub struct Freelist {
    pub frames: Vec<u64>,
}

impl View for Freelist {
    type V = Seq<u64>;

    open spec fn view(&self) -> Seq<u64> {
        self.frames@
    }
}

impl Freelist {
    /// An empty pool.
    pub fn new() -> (fl: Freelist)
        ensures
            fl@ == Seq::<u64>::empty(),
    {
        Freelist { frames: Vec::new() }
    }
}

/// Build the frame pool from the boot memory map: every usable region is
/// cut into whole frames and each frame is pushed onto the stack, regions
/// in map order and frames in ascending order within a region.
///
/// The `DirectMap` argument is the evidence that the direct-map offset is
/// already established: in the running kernel the pool's linkage lives
/// inside the free frames themselves, reached through that offset.
pub fn build_freelist(dm: &DirectMap, regions: &Vec<MemRegion>) -> (fl: Freelist)
    requires
        regions_wf(regions@),
    ensures
        fl@ == frames_of_regions(regions@),
        freelist_wf(fl@),
{
    let mut fl = Freelist { frames: Vec::new() };
    let mut i: usize = 0;
    while i < regions.len()
        invariant
            regions_wf(regions@),
            i <= regions.len(),
            fl@ == frames_of_regions(regions@.take(i as int)),
        decreases regions.len() - i,
    {
        let r = regions[i];
        if matches!(r.kind, RegionKind::Usable) {
            let nframes: u64 = r.len / FRAME_SIZE;
            proof {
                assert(regions@.take(i as int + 1)[i as int] == regions@[i as int]);
                vstd::arithmetic::div_mod::lemma_fundamental_div_mod(r.len as int, FRAME_SIZE as int);
            }
            let mut k: u64 = 0;
            while k < nframes
                invariant
                    regions_wf(regions@),
                    i < regions.len(),
                    r == regions@[i as int],
                    usable(r),
                    nframes == r.len as int / FRAME_SIZE as int,
                    nframes * FRAME_SIZE == r.len,
                    r.base + r.len <= u64::MAX,
                    k <= nframes,
                    fl@ == frames_of_regions(regions@.take(i as int)) + Seq::new(
                        k as nat,
                        |m: int| (r.base as int + FRAME_SIZE as int * m) as u64,
                    ),
                decreases nframes - k,
            {
                proof {
                    vstd::arithmetic::mul::lemma_mul_inequality(k as int + 1, nframes as int, FRAME_SIZE as int);
                    assert((k as int + 1) * FRAME_SIZE as int == k as int * FRAME_SIZE as int + FRAME_SIZE as int) by (nonlinear_arith);
                }
                fl.frames.push(r.base + k * FRAME_SIZE);
                k = k + 1;
                proof {
                    let prefix = frames_of_regions(regions@.take(i as int));
                    let cur = Seq::new(k as nat, |m: int| (r.base as int + FRAME_SIZE as int * m) as u64);
                    assert(fl@ =~= prefix + cur);
                }
            }
            proof {
                assert(Seq::new(nframes as nat, |m: int| (r.base as int + FRAME_SIZE as int * m) as u64)
                    =~= region_frames(r.base, r.len));
            }
        }
        i = i + 1;
        proof {
            assert(regions@.take(i as int).drop_last() =~= regions@.take(i as int - 1));
            assert(regions@.take(i as int).last() == regions@[i as int - 1]);
            if !usable(regions@[i as int - 1]) {
                assert(fl@ =~= frames_of_regions(regions@.take(i as int)));
            }
        }
    }
    proof {
        assert(regions@.take(regions@.len() as int) =~= regions@);
        lemma_frames_of_regions_wf(regions@);
    }
    fl
}

/// Pop the most recently freed (or built) frame off the pool.
///
/// Succeeds exactly when the pool is non-empty; an empty pool yields
/// `OutOfPages`, a recoverable condition for the caller to handle.
pub fn allocate_page(fl: &mut Freelist) -> (r: Result<u64, MemoryError>)
    ensures
        old(fl)@.len() > 0 ==> r == Ok::<u64, MemoryError>(old(fl)@.last()) && final(fl)@ == old(fl)@.drop_last(),
        old(fl)@.len() == 0 ==> r == Err::<u64, MemoryError>(MemoryError::OutOfPages) && final(fl)@ == old(fl)@,
        freelist_wf(old(fl)@) ==> freelist_wf(final(fl)@),
        freelist_wf(old(fl)@) && r is Ok ==> !final(fl)@.contains(r->Ok_0),
{
    let popped = fl.frames.pop();
    match popped {
        Some(address) => {
            proof {
                if freelist_wf(old(fl)@) {
                    assert forall|i: int| 0 <= i < fl@.len() implies fl@[i] != address by {
                        assert(old(fl)@[i] == fl@[i]);
                        assert(old(fl)@[old(fl)@.len() - 1] == address);
                    }
                }
            }
            Ok(address)
        },
        None => Err(MemoryError::OutOfPages),
    }
}

/// Push a frame back onto the pool.
///
/// The frame must be frame-aligned and in active use (not already free):
/// a frame's storage is either in the pool or in use, never both, and a
/// double free would break that.
pub fn deallocate_page(fl: &mut Freelist, address: u64)
    requires
        address % FRAME_SIZE == 0,
        !old(fl)@.contains(address),
    ensures
        final(fl)@ == old(fl)@.push(address),
        freelist_wf(old(fl)@) ==> freelist_wf(final(fl)@),
{
    fl.frames.push(address);
    proof {
        if freelist_wf(old(fl)@) {
            assert forall|i: int, j: int| 0 <= i < j < fl@.len() implies fl@[i] != fl@[j] by {
                if j == fl@.len() - 1 {
                    assert(old(fl)@[i] == fl@[i]);
                    assert(old(fl)@.contains(old(fl)@[i]));
                }
            }
        }
    }
}

/// Every frame of a built pool lies inside some usable region of the map.
proof fn lemma_frames_in_regions(rs: Seq<MemRegion>, f: u64)
    requires
        regions_wf(rs),
        frames_of_regions(rs).contains(f),
    ensures
        exists|j: int|
            0 <= j < rs.len() && usable(#[trigger] rs[j]) && rs[j].base <= f < rs[j].base + rs[j].len
                && f as int % FRAME_SIZE as int == rs[j].base as int % FRAME_SIZE as int,
    decreases rs.len(),
{
    let whole = frames_of_regions(rs);
    let prefix = frames_of_regions(rs.drop_last());
    let k = choose|k: int| 0 <= k < whole.len() && whole[k] == f;
    assert(regions_wf(rs.drop_last())) by {
        assert(forall|i: int| 0 <= i < rs.drop_last().len() ==> rs.drop_last()[i] == rs[i]);
    }
    if k < prefix.len() {
        assert(prefix[k] == f);
        lemma_frames_in_regions(rs.drop_last(), f);
        let j = choose|j: int|
            0 <= j < rs.drop_last().len() && usable(#[trigger] rs.drop_last()[j])
                && rs.drop_last()[j].base <= f < rs.drop_last()[j].base + rs.drop_last()[j].len
                && f as int % FRAME_SIZE as int == rs.drop_last()[j].base as int % FRAME_SIZE as int;
        assert(rs.drop_last()[j] == rs[j]);
    } else {
        let r = rs.last();
        assert(usable(r));
        assert(rs[rs.len() - 1] == r);
        assert(r.base % FRAME_SIZE == 0 && r.len % FRAME_SIZE == 0 && r.base + r.len <= u64::MAX);
        let m = k - prefix.len();
        let len = r.len as int;
        let nf = len / FRAME_SIZE as int;
        vstd::arithmetic::div_mod::lemma_fundamental_div_mod(len, FRAME_SIZE as int);
        assert(nf * FRAME_SIZE as int == len);
        vstd::arithmetic::mul::lemma_mul_inequality(m + 1, nf, FRAME_SIZE as int);
        assert((m + 1) * FRAME_SIZE as int == m * FRAME_SIZE as int + FRAME_SIZE as int) by (nonlinear_arith);
        assert(FRAME_SIZE as int * m >= 0) by (nonlinear_arith)
            requires m >= 0;
        assert(r.base as int + FRAME_SIZE as int * m <= r.base + r.len - FRAME_SIZE);
        assert(f == (r.base as int + FRAME_SIZE as int * m) as u64);
        assert(f as int == r.base as int + FRAME_SIZE as int * m);
        assert(r.base <= f < r.base + r.len);
        assert((r.base as int + FRAME_SIZE as int * m) % FRAME_SIZE as int == r.base as int
            % FRAME_SIZE as int) by (nonlinear_arith)
            requires
                FRAME_SIZE as int > 0,
                m >= 0,
        ;
        let j = rs.len() - 1;
        assert(0 <= j < rs.len() && usable(rs[j]) && rs[j].base <= f < rs[j].base + rs[j].len
            && f as int % FRAME_SIZE as int == rs[j].base as int % FRAME_SIZE as int);
    }
}

/// A built pool is well formed: all frames aligned, none listed twice.
proof fn lemma_frames_of_regions_wf(rs: Seq<MemRegion>)
    requires
        regions_wf(rs),
    ensures
        freelist_wf(frames_of_regions(rs)),
    decreases rs.len(),
{
    let whole = frames_of_regions(rs);
    if rs.len() == 0 {
    } else {
        let prefix = frames_of_regions(rs.drop_last());
        let r = rs.last();
        assert(regions_wf(rs.drop_last())) by {
            assert(forall|i: int| 0 <= i < rs.drop_last().len() ==> rs.drop_last()[i] == rs[i]);
        }
        lemma_frames_of_regions_wf(rs.drop_last());
        if usable(r) {
            vstd::arithmetic::div_mod::lemma_fundamental_div_mod(r.len as int, FRAME_SIZE as int);
            let nf = r.len as int / FRAME_SIZE as int;
            assert forall|i: int| 0 <= i < whole.len() implies #[trigger] whole[i] % FRAME_SIZE == 0 by {
                if i < prefix.len() {
                    assert(whole[i] == prefix[i]);
                } else {
                    let m = i - prefix.len();
                    vstd::arithmetic::mul::lemma_mul_inequality(m + 1, nf, FRAME_SIZE as int);
                    assert((m + 1) * FRAME_SIZE as int == m * FRAME_SIZE as int + FRAME_SIZE as int)
                        by (nonlinear_arith);
                    assert(FRAME_SIZE as int * m >= 0) by (nonlinear_arith)
                        requires m >= 0;
                    assert((r.base as int + FRAME_SIZE as int * m) % FRAME_SIZE as int == 0)
                        by (nonlinear_arith)
                        requires
                            r.base as int % FRAME_SIZE as int == 0,
                            FRAME_SIZE as int > 0,
                            m >= 0,
                    ;
                }
            }
            assert forall|i: int, j: int| 0 <= i < j < whole.len() implies whole[i] != whole[j] by {
                if j < prefix.len() {
                } else if i >= prefix.len() {
                    let mi = i - prefix.len();
                    let mj = j - prefix.len();
                    assert(FRAME_SIZE as int * mi < FRAME_SIZE as int * mj) by (nonlinear_arith)
                        requires 0 <= mi < mj;
                    vstd::arithmetic::mul::lemma_mul_inequality(mj + 1, nf, FRAME_SIZE as int);
                    assert((mj + 1) * FRAME_SIZE as int == mj * FRAME_SIZE as int + FRAME_SIZE as int)
                        by (nonlinear_arith);
                    assert(FRAME_SIZE as int * mi >= 0) by (nonlinear_arith)
                        requires mi >= 0;
                } else {
                    let mj = j - prefix.len();
                    assert(whole[i] == prefix[i]);
                    assert(prefix.contains(prefix[i]));
                    lemma_frames_in_regions(rs.drop_last(), prefix[i]);
                    let e = choose|e: int|
                        0 <= e < rs.drop_last().len() && usable(#[trigger] rs.drop_last()[e])
                            && rs.drop_last()[e].base <= prefix[i] < rs.drop_last()[e].base
                            + rs.drop_last()[e].len && prefix[i] as int % FRAME_SIZE as int
                            == rs.drop_last()[e].base as int % FRAME_SIZE as int;
                    assert(rs.drop_last()[e] == rs[e]);
                    assert(usable(rs[e]) && usable(rs[rs.len() - 1]));
                    vstd::arithmetic::mul::lemma_mul_inequality(mj + 1, nf, FRAME_SIZE as int);
                    assert((mj + 1) * FRAME_SIZE as int == mj * FRAME_SIZE as int + FRAME_SIZE as int)
                        by (nonlinear_arith);
                    assert(FRAME_SIZE as int * mj >= 0) by (nonlinear_arith)
                        requires mj >= 0;
                    assert(r.base <= whole[j] < r.base + r.len);
                }
            }
        }
    }
}

/// Allocator conservation: a pool built from a memory map with `B` usable
/// bytes holds exactly `B / 4096` frames. Together with the contracts of
/// `allocate_page` (success exactly while the pool is non-empty, one frame
/// off per success) and `deallocate_page` (one frame back on), the number
/// of successful allocations before the first `OutOfPages` is `B / 4096`
/// for any interleaving that never frees more than was taken.
pub proof fn lemma_allocator_conservation(rs: Seq<MemRegion>)
    requires
        regions_wf(rs),
    ensures
        frames_of_regions(rs).len() * FRAME_SIZE == total_usable_bytes(rs),
    decreases rs.len(),
{
    if rs.len() == 0 {
    } else {
        assert(regions_wf(rs.drop_last())) by {
            assert(forall|i: int| 0 <= i < rs.drop_last().len() ==> rs.drop_last()[i] == rs[i]);
        }
        lemma_allocator_conservation(rs.drop_last());
        let r = rs.last();
        if usable(r) {
            vstd::arithmetic::div_mod::lemma_fundamental_div_mod(r.len as int, FRAME_SIZE as int);
            let a = frames_of_regions(rs.drop_last()).len() as int;
            let b = region_frames(r.base, r.len).len() as int;
            assert((a + b) * FRAME_SIZE as int == a * FRAME_SIZE as int + b * FRAME_SIZE as int)
                by (nonlinear_arith);
        }
    }
}

/// Last-in, first-out reuse: freeing a frame and allocating with nothing
/// in between hands the same frame back and leaves the pool as it was.
/// This is the model-level statement behind `deallocate_page` (push)
/// followed by `allocate_page` (pop).
pub proof fn lemma_allocator_reuse(s: Seq<u64>, f: u64)
    ensures
        s.push(f).last() == f,
        s.push(f).drop_last() =~= s,
{
}

/// No double issue: the frames handed out by a run of `k` allocations with
/// no intervening free are the top `k` of the pool — pairwise distinct and
/// all drawn from the pool the run started with.
pub proof fn lemma_no_double_issue(s: Seq<u64>, k: int)
    requires
        freelist_wf(s),
        0 <= k <= s.len(),
    ensures
        forall|i: int, j: int|
            s.len() - k <= i < j < s.len() ==> s[i] != s[j],
        forall|i: int| s.len() - k <= i < s.len() ==> s.contains(#[trigger] s[i]),
{
}

/// Entries per page-table node: a node is an array of 512 64-bit words.
pub const ENTRY_COUNT: usize = 512;

/// Low 12 bits of a page-table entry: the flag field (bit 0 = present).
pub const FLAGS_MASK: u64 = 0xFFF;

/// High bits of a page-table entry: the frame-aligned address field.
pub const ADDR_MASK: u64 = 0xFFFF_FFFF_FFFF_F000;

/// Whether a page-table entry has its present bit set.
pub open spec fn entry_present(e: u64) -> bool {
    e & 1 == 1
}

/// The address field of a page-table entry.
pub open spec fn entry_addr(e: u64) -> u64 {
    e & ADDR_MASK
}

/// The flag field of a page-table entry.
pub open spec fn entry_flags(e: u64) -> u64 {
    e & FLAGS_MASK
}

/// The 9-bit index a virtual address selects at a given level of the
/// 4-level walk: bits 39-47, 30-38, 21-29 and 12-20 for levels 4 down
/// to 1.
pub open spec fn vpage_index(vaddr: u64, level: int) -> int {
    if level == 4 {
        ((vaddr >> 39) & 0x1FF) as int
    } else if level == 3 {
        ((vaddr >> 30) & 0x1FF) as int
    } else if level == 2 {
        ((vaddr >> 21) & 0x1FF) as int
    } else {
        ((vaddr >> 12) & 0x1FF) as int
    }
}

/// The virtual page number: bits 12-47, everything the four indices are
/// drawn from. Two virtual addresses with the same page number name the
/// same page-table path.
pub open spec fn vpn(vaddr: u64) -> u64 {
    (vaddr >> 12) & 0xF_FFFF_FFFF
}

/// One level of the page-table hierarchy: the node's level and its
/// 512-entry array, exactly as the hardware reads it.
pub struct PtNode {
    pub level: u8,
    pub entries: Vec<u64>,
}

/// The physical memory holding page-table nodes, keyed by the physical
/// address of the frame that backs each node. In the running kernel this
/// is raw memory reached through the direct map; here it is the model the
/// page-table contracts are stated over.
pub struct PtMemory {
    pub nodes: HashMap<u64, PtNode>,
}

impl View for PtMemory {
    type V = Map<u64, PtNode>;

    open spec fn view(&self) -> Map<u64, PtNode> {
        self.nodes@
    }
}

impl PtMemory {
    /// No page-table nodes yet.
    pub fn new() -> (m: PtMemory)
        ensures
            m@ == Map::<u64, PtNode>::empty(),
    {
        PtMemory { nodes: HashMap::new() }
    }
}

/// A handle onto one page-table node: its level (4 = root, 1 = leaf-index
/// table) and the physical address of its entry array. Level 0 handles
/// stand for mapped frames, the result of a complete walk.
#[derive(Debug, Clone, Copy, PartialEq, Eq, Structural)]
pub struct Pagemap {
    pub level: u8,
    pub addr: u64,
}

/// A sound node: 512 entries, level between 1 and 4.
pub open spec fn node_wf(n: PtNode) -> bool {
    &&& n.entries@.len() == ENTRY_COUNT
    &&& 1 <= n.level <= 4
}

/// Entry `i` of node `a` is a live child pointer: the node exists, it is
/// an interior node (level 2 or above), and the entry is present.
pub open spec fn interior_present(m: Map<u64, PtNode>, a: u64, i: int) -> bool {
    &&& m.contains_key(a)
    &&& m[a].level >= 2
    &&& 0 <= i < ENTRY_COUNT
    &&& entry_present(m[a].entries@[i])
}

/// The child address entry `i` of node `a` points at.
pub open spec fn child_of(m: Map<u64, PtNode>, a: u64, i: int) -> u64 {
    entry_addr(m[a].entries@[i])
}

/// No live child pointer of any interior node names `c`: `c` has no
/// parent in the hierarchy.
pub open spec fn parentless(m: Map<u64, PtNode>, c: u64) -> bool {
    forall|a: u64, i: int| #[trigger] interior_present(m, a, i) ==> child_of(m, a, i) != c
}

/// Well-formed page-table memory:
/// - every node is sound;
/// - every live child pointer of a level-L interior node names an existing
///   node of level L-1 (so a walk descends one level per hop and the nodes
///   met along one path are pairwise distinct);
/// - no two live child pointers name the same child (each node has exactly
///   one parent slot, so paths to a node are unique).
pub open spec fn mem_wf(m: Map<u64, PtNode>) -> bool {
    &&& forall|a: u64| #[trigger] m.contains_key(a) ==> node_wf(m[a])
    &&& forall|a: u64, i: int|
        #[trigger] interior_present(m, a, i) ==> m.contains_key(child_of(m, a, i)) && m[child_of(
            m,
            a,
            i,
        )].level + 1 == m[a].level
    &&& forall|a: u64, i: int, b: u64, j: int|
        #[trigger] interior_present(m, a, i) && #[trigger] interior_present(m, b, j) && child_of(
            m,
            a,
            i,
        ) == child_of(m, b, j) ==> a == b && i == j
}

/// The handle names an existing node of its own level.
pub open spec fn valid_node(m: Map<u64, PtNode>, pm: Pagemap) -> bool {
    &&& m.contains_key(pm.addr)
    &&& m[pm.addr].level == pm.level
}

/// None of the pool's frames backs a page-table node: what the allocator
/// hands out is genuinely new memory for the hierarchy.
pub open spec fn fresh_for(s: Seq<u64>, m: Map<u64, PtNode>) -> bool {
    forall|i: int| 0 <= i < s.len() ==> !m.contains_key(#[trigger] s[i])
}

/// The result of walking the hierarchy for `vaddr` from the root node at
/// `root`: the mapped frame and its flags, or `NotPresent` at the first
/// absent entry. This is the specification `get_vpage` is proved against
/// and `set_vpage` is proved to establish.
pub open spec fn lookup_spec(m: Map<u64, PtNode>, root: u64, vaddr: u64) -> Result<
    (Pagemap, u64),
    MemoryError,
> {
    let e4 = m[root].entries@[vpage_index(vaddr, 4)];
    if !entry_present(e4) {
        Err(MemoryError::NotPresent)
    } else {
        let e3 = m[entry_addr(e4)].entries@[vpage_index(vaddr, 3)];
        if !entry_present(e3) {
            Err(MemoryError::NotPresent)
        } else {
            let e2 = m[entry_addr(e3)].entries@[vpage_index(vaddr, 2)];
            if !entry_present(e2) {
                Err(MemoryError::NotPresent)
            } else {
                let e1 = m[entry_addr(e2)].entries@[vpage_index(vaddr, 1)];
                if !entry_present(e1) {
                    Err(MemoryError::NotPresent)
                } else {
                    Ok((Pagemap { level: 0, addr: entry_addr(e1) }, entry_flags(e1)))
                }
            }
        }
    }
}

/// The three interior entries of the walk for `vaddr` are all present:
/// mapping `vaddr` again will create no node and take no frame.
pub open spec fn path_present(m: Map<u64, PtNode>, root: u64, vaddr: u64) -> bool {
    let e4 = m[root].entries@[vpage_index(vaddr, 4)];
    let e3 = m[entry_addr(e4)].entries@[vpage_index(vaddr, 3)];
    let e2 = m[entry_addr(e3)].entries@[vpage_index(vaddr, 2)];
    entry_present(e4) && entry_present(e3) && entry_present(e2)
}

/// Unmapped lookup: a root whose entries are all still zero — as
/// `Pagemap::new` hands it out — maps nothing, so walking any virtual
/// address from it yields `NotPresent`. Together with `set_vpage`'s
/// contract, an address is mapped only once some `set_vpage` call put it
/// there.
pub proof fn lemma_unmapped_lookup(m: Map<u64, PtNode>, root: u64, vaddr: u64)
    requires
        m.contains_key(root),
        m[root].entries@ == Seq::new(ENTRY_COUNT as nat, |i: int| 0u64),
    ensures
        lookup_spec(m, root, vaddr) == Err::<(Pagemap, u64), MemoryError>(MemoryError::NotPresent),
{
    assert(0 <= vpage_index(vaddr, 4) < 512) by {
        assert((vaddr >> 39) & 0x1FF < 512) by (bit_vector);
    }
    assert(m[root].entries@[vpage_index(vaddr, 4)] == 0u64);
    assert(!entry_present(0u64)) by (bit_vector);
}

/// A level-2 node off the rewritten path reads the same leaf table in
/// `m0` and `m4`. `l1` is the walk's leaf table (fresh when `b1` is
/// false, else the child of the rewritten level-2 entry), and `c2` is not
/// that rewritten node, so parent uniqueness keeps `c2`'s child off `l1`.
proof fn lemma_leaf_walk_agrees(
    m0: Map<u64, PtNode>,
    m4: Map<u64, PtNode>,
    c2: u64,
    v2: u64,
    l2: u64,
    l1: u64,
    i2: int,
    b1: bool,
)
    requires
        mem_wf(m0),
        m0.contains_key(c2) && m0[c2].level == 2,
        m4.contains_key(c2) && m4[c2] == m0[c2],
        0 <= vpage_index(v2, 2) < 512,
        b1 ==> interior_present(m0, l2, i2) && child_of(m0, l2, i2) == l1 && c2 != l2,
        b1 ==> m0.contains_key(l1) && m0[l1].level == 1,
        !b1 ==> !m0.contains_key(l1),
        forall|b: u64|
            #[trigger] m0.contains_key(b) && b != l1 && m0[b].level <= 1 ==> m4.contains_key(b)
                && m4[b] == m0[b],
    ensures
        ({
            let e2 = m0[c2].entries@[vpage_index(v2, 2)];
            entry_present(e2) ==> m4.contains_key(entry_addr(e2)) && m4[entry_addr(e2)]
                == m0[entry_addr(e2)]
        }),
{
    let j2 = vpage_index(v2, 2);
    let e2 = m0[c2].entries@[j2];
    if entry_present(e2) {
        assert(interior_present(m0, c2, j2));
        let c1 = child_of(m0, c2, j2);
        assert(m0.contains_key(c1) && m0[c1].level == 1);
        assert(c1 != l1) by {
            if b1 && c1 == l1 {
                assert(c2 == l2);
            }
        }
        assert(m4[c1] == m0[c1]);
    }
}

/// A level-3 node off the rewritten path reads the same subtree in `m0`
/// and `m4`: parent uniqueness keeps its children off the rewritten
/// level-2 and level-1 nodes.
proof fn lemma_lower_walk_agrees(
    m0: Map<u64, PtNode>,
    m4: Map<u64, PtNode>,
    c3: u64,
    v2: u64,
    l3: u64,
    l2: u64,
    l1: u64,
    i3: int,
    i2: int,
    b2: bool,
    b1: bool,
)
    requires
        mem_wf(m0),
        m0.contains_key(c3) && m0[c3].level == 3,
        m4.contains_key(c3) && m4[c3] == m0[c3],
        0 <= vpage_index(v2, 3) < 512,
        0 <= vpage_index(v2, 2) < 512,
        b1 ==> b2,
        b2 ==> interior_present(m0, l3, i3) && child_of(m0, l3, i3) == l2 && c3 != l3,
        b2 ==> m0.contains_key(l2) && m0[l2].level == 2,
        !b2 ==> !m0.contains_key(l2),
        b1 ==> interior_present(m0, l2, i2) && child_of(m0, l2, i2) == l1,
        b1 ==> m0.contains_key(l1) && m0[l1].level == 1,
        !b1 ==> !m0.contains_key(l1),
        forall|b: u64|
            #[trigger] m0.contains_key(b) && b != l2 && b != l1 && m0[b].level <= 2
                ==> m4.contains_key(b) && m4[b] == m0[b],
    ensures
        ({
            let e3 = m0[c3].entries@[vpage_index(v2, 3)];
            entry_present(e3) ==> {
                let c2 = entry_addr(e3);
                &&& m4.contains_key(c2) && m4[c2] == m0[c2]
                &&& {
                    let e2 = m0[c2].entries@[vpage_index(v2, 2)];
                    entry_present(e2) ==> m4.contains_key(entry_addr(e2)) && m4[entry_addr(e2)]
                        == m0[entry_addr(e2)]
                }
            }
        }),
{
    let j3 = vpage_index(v2, 3);
    let e3 = m0[c3].entries@[j3];
    if entry_present(e3) {
        assert(interior_present(m0, c3, j3));
        let c2 = child_of(m0, c3, j3);
        assert(m0.contains_key(c2) && m0[c2].level == 2);
        assert(c2 != l2) by {
            if b2 && c2 == l2 {
                assert(c3 == l3);
            }
        }
        assert(c2 != l1) by {
            if b1 && c2 == l1 {
                assert(m0[l1].level == 1);
            }
        }
        assert(m4[c2] == m0[c2]);
        assert forall|b: u64|
            #[trigger] m0.contains_key(b) && b != l1 && m0[b].level <= 1 implies m4.contains_key(b)
            && m4[b] == m0[b] by {
            if b2 && b == l2 {
                assert(m0[l2].level == 2);
            }
        }
        lemma_leaf_walk_agrees(m0, m4, c2, v2, l2, l1, i2, b1);
    }
}

/// Mapping is local: after a walk for `vaddr` rebuilt or rewrote the path
/// `root -> l3 -> l2 -> l1`, the lookup of any virtual address with a
/// different page number reads exactly what it read before.
///
/// `m0` is the memory before the walk, `m4` after; `b3`/`b2`/`b1` say
/// whether the child under the walk's index already existed in `m0` at
/// levels 4, 3 and 2 (otherwise that child is a fresh frame unknown to
/// `m0`). Parent uniqueness (`mem_wf`) keeps every foreign path off the
/// rewritten nodes.
#[verifier::rlimit(100)]
proof fn lemma_map_preserves_other_lookups(
    m0: Map<u64, PtNode>,
    m4: Map<u64, PtNode>,
    root: u64,
    l3: u64,
    l2: u64,
    l1: u64,
    vaddr: u64,
    b3: bool,
    b2: bool,
    b1: bool,
)
    requires
        mem_wf(m0),
        mem_wf(m4),
        m0.contains_key(root) && m0[root].level == 4,
        m4.contains_key(root) && m4[root].level == 4,
        m4.contains_key(l3) && m4[l3].level == 3,
        m4.contains_key(l2) && m4[l2].level == 2,
        m4.contains_key(l1) && m4[l1].level == 1,
        b2 ==> b3,
        b1 ==> b2,
        b3 == entry_present(m0[root].entries@[vpage_index(vaddr, 4)]),
        b3 ==> child_of(m0, root, vpage_index(vaddr, 4)) == l3,
        !b3 ==> !m0.contains_key(l3),
        b3 ==> b2 == entry_present(m0[l3].entries@[vpage_index(vaddr, 3)]),
        b2 ==> child_of(m0, l3, vpage_index(vaddr, 3)) == l2,
        !b2 ==> !m0.contains_key(l2),
        b2 ==> b1 == entry_present(m0[l2].entries@[vpage_index(vaddr, 2)]),
        b1 ==> child_of(m0, l2, vpage_index(vaddr, 2)) == l1,
        !b1 ==> !m0.contains_key(l1),
        entry_present(m4[root].entries@[vpage_index(vaddr, 4)]) && entry_addr(
            m4[root].entries@[vpage_index(vaddr, 4)],
        ) == l3,
        entry_present(m4[l3].entries@[vpage_index(vaddr, 3)]) && entry_addr(
            m4[l3].entries@[vpage_index(vaddr, 3)],
        ) == l2,
        entry_present(m4[l2].entries@[vpage_index(vaddr, 2)]) && entry_addr(
            m4[l2].entries@[vpage_index(vaddr, 2)],
        ) == l1,
        forall|j: int|
            0 <= j < ENTRY_COUNT && j != vpage_index(vaddr, 4) ==> m4[root].entries@[j]
                == m0[root].entries@[j],
        forall|j: int|
            0 <= j < ENTRY_COUNT && j != vpage_index(vaddr, 3) ==> m4[l3].entries@[j] == (if b3 {
                m0[l3].entries@[j]
            } else {
                0u64
            }),
        forall|j: int|
            0 <= j < ENTRY_COUNT && j != vpage_index(vaddr, 2) ==> m4[l2].entries@[j] == (if b2 {
                m0[l2].entries@[j]
            } else {
                0u64
            }),
        forall|j: int|
            0 <= j < ENTRY_COUNT && j != vpage_index(vaddr, 1) ==> m4[l1].entries@[j] == (if b1 {
                m0[l1].entries@[j]
            } else {
                0u64
            }),
        forall|b: u64|
            #[trigger] m0.contains_key(b) && b != root && b != l3 && b != l2 && b != l1
                ==> m4.contains_key(b) && m4[b] == m0[b],
    ensures
        forall|v2: u64|
            vpn(v2) != vpn(vaddr) ==> lookup_spec(m4, root, v2) == lookup_spec(m0, root, v2),
{
    let i4 = vpage_index(vaddr, 4);
    let i3 = vpage_index(vaddr, 3);
    let i2 = vpage_index(vaddr, 2);
    let i1 = vpage_index(vaddr, 1);
    assert(0 <= i4 < 512 && 0 <= i3 < 512 && 0 <= i2 < 512 && 0 <= i1 < 512) by {
        assert((vaddr >> 39) & 0x1FF < 512 && (vaddr >> 30) & 0x1FF < 512 && (vaddr >> 21) & 0x1FF
            < 512 && (vaddr >> 12) & 0x1FF < 512) by (bit_vector);
    }
    // the walk's own nodes, where they already existed, sit one level
    // apart along the old path
    if b3 {
        assert(interior_present(m0, root, i4));
        assert(m0.contains_key(l3) && m0[l3].level == 3);
    }
    if b2 {
        assert(interior_present(m0, l3, i3));
        assert(m0.contains_key(l2) && m0[l2].level == 2);
    }
    if b1 {
        assert(interior_present(m0, l2, i2));
        assert(m0.contains_key(l1) && m0[l1].level == 1);
    }
    // foreign subtrees, as the two helper lemmas expect them
    assert forall|b: u64|
        #[trigger] m0.contains_key(b) && b != l2 && b != l1 && m0[b].level <= 2
        implies m4.contains_key(b) && m4[b] == m0[b] by {
        assert(b != root);
        if b3 && b == l3 {
            assert(interior_present(m0, root, i4));
            assert(m0[l3].level == 3);
        }
    }
    assert forall|b: u64|
        #[trigger] m0.contains_key(b) && b != l1 && m0[b].level <= 1 implies m4.contains_key(b)
        && m4[b] == m0[b] by {
        assert(b != root);
        if b3 && b == l3 {
            assert(interior_present(m0, root, i4));
            assert(m0[l3].level == 3);
        }
        if b2 && b == l2 {
            assert(interior_present(m0, root, i4));
            assert(m0[l3].level == 3);
            assert(interior_present(m0, l3, i3));
            assert(m0[l2].level == 2);
        }
    }
    assert forall|v2: u64| vpn(v2) != vpn(vaddr) implies lookup_spec(m4, root, v2) == lookup_spec(
        m0,
        root,
        v2,
    ) by {
        let j4 = vpage_index(v2, 4);
        let j3 = vpage_index(v2, 3);
        let j2 = vpage_index(v2, 2);
        let j1 = vpage_index(v2, 1);
        assert(0 <= j4 < 512 && 0 <= j3 < 512 && 0 <= j2 < 512 && 0 <= j1 < 512) by {
            assert((v2 >> 39) & 0x1FF < 512 && (v2 >> 30) & 0x1FF < 512 && (v2 >> 21) & 0x1FF < 512
                && (v2 >> 12) & 0x1FF < 512) by (bit_vector);
        }
        assert(!(j4 == i4 && j3 == i3 && j2 == i2 && j1 == i1)) by {
            assert(((v2 >> 39) & 0x1FF == (vaddr >> 39) & 0x1FF && (v2 >> 30) & 0x1FF == (vaddr
                >> 30) & 0x1FF && (v2 >> 21) & 0x1FF == (vaddr >> 21) & 0x1FF && (v2 >> 12) & 0x1FF
                == (vaddr >> 12) & 0x1FF) ==> (v2 >> 12) & 0xF_FFFF_FFFF == (vaddr >> 12)
                & 0xF_FFFF_FFFF) by (bit_vector);
        }
        assert(!entry_present(0u64)) by (bit_vector);
        if j4 != i4 {
            let e4 = m0[root].entries@[j4];
            assert(m4[root].entries@[j4] == e4);
            if entry_present(e4) {
                assert(interior_present(m0, root, j4));
                let c3 = child_of(m0, root, j4);
                assert(m0.contains_key(c3) && m0[c3].level == 3);
                assert(c3 != l3) by {
                    if b3 {
                        assert(interior_present(m0, root, i4));
                        if c3 == l3 {
                            assert(j4 == i4);
                        }
                    }
                }
                assert(c3 != root && c3 != l2 && c3 != l1) by {
                    if b2 && c3 == l2 {
                        assert(m0[l2].level == 2);
                    }
                    if b1 && c3 == l1 {
                        assert(m0[l1].level == 1);
                    }
                }
                assert(m4[c3] == m0[c3]);
                lemma_lower_walk_agrees(m0, m4, c3, v2, l3, l2, l1, i3, i2, b2, b1);
            }
        } else {
            // both walks descend into l3 through the rewritten entry
            if !b3 {
                // the old walk already stops at the root; below l3 the new
                // path is fresh and all zero off the written indices
                assert(!b2 && !b1);
                if j3 != i3 {
                    assert(m4[l3].entries@[j3] == 0u64);
                } else if j2 != i2 {
                    assert(m4[l2].entries@[j2] == 0u64);
                } else {
                    assert(j1 != i1);
                    assert(m4[l1].entries@[j1] == 0u64);
                }
            } else {
                assert(m0.contains_key(l3) && m0[l3].level == 3) by {
                    assert(interior_present(m0, root, i4));
                }
                if j3 != i3 {
                    let e3 = m0[l3].entries@[j3];
                    assert(m4[l3].entries@[j3] == e3);
                    if entry_present(e3) {
                        assert(interior_present(m0, l3, j3));
                        let c2 = child_of(m0, l3, j3);
                        assert(m0.contains_key(c2) && m0[c2].level == 2);
                        assert(c2 != l2) by {
                            if b2 {
                                assert(interior_present(m0, l3, i3));
                                if c2 == l2 {
                                    assert(j3 == i3);
                                }
                            }
                        }
                        assert(c2 != l1) by {
                            if b1 && c2 == l1 {
                                assert(m0[l1].level == 1);
                            }
                        }
                        assert(m4[c2] == m0[c2]);
                        lemma_leaf_walk_agrees(m0, m4, c2, v2, l2, l1, i2, b1);
                    }
                } else if !b2 {
                    // the old walk stops at l3; fresh l2 is zero off i2
                    assert(!b1);
                    if j2 != i2 {
                        assert(m4[l2].entries@[j2] == 0u64);
                    } else {
                        assert(j1 != i1);
                        assert(m4[l1].entries@[j1] == 0u64);
                    }
                } else {
                    assert(m0.contains_key(l2) && m0[l2].level == 2) by {
                        assert(interior_present(m0, l3, i3));
                    }
                    if j2 != i2 {
                        let e2 = m0[l2].entries@[j2];
                        assert(m4[l2].entries@[j2] == e2);
                        if entry_present(e2) {
                            assert(interior_present(m0, l2, j2));
                            let c1 = child_of(m0, l2, j2);
                            assert(m0.contains_key(c1) && m0[c1].level == 1);
                            assert(c1 != l1) by {
                                if b1 {
                                    assert(interior_present(m0, l2, i2));
                                    if c1 == l1 {
                                        assert(j2 == i2);
                                    }
                                }
                            }
                            assert(m4[c1] == m0[c1]);
                        }
                    } else if !b1 {
                        // the old walk stops at l2; fresh l1 is zero off i1
                        assert(j1 != i1);
                        assert(m4[l1].entries@[j1] == 0u64);
                    } else {
                        assert(m0.contains_key(l1)) by {
                            assert(interior_present(m0, l2, i2));
                        }
                        assert(j1 != i1);
                        assert(m4[l1].entries@[j1] == m0[l1].entries@[j1]);
                    }
                }
            }
        }
    }
}

/// The 9-bit slice of `vaddr` that indexes a node at `level`.
fn vpage_index_exec(vaddr: u64, level: u8) -> (i: usize)
    requires
        1 <= level <= 4,
    ensures
        i == vpage_index(vaddr, level as int),
        i < ENTRY_COUNT,
{
    proof {
        assert((vaddr >> 39) & 0x1FF < 512 && (vaddr >> 30) & 0x1FF < 512 && (vaddr >> 21) & 0x1FF
            < 512 && (vaddr >> 12) & 0x1FF < 512) by (bit_vector);
    }
    if level == 4 {
        ((vaddr >> 39) & 0x1FF) as usize
    } else if level == 3 {
        ((vaddr >> 30) & 0x1FF) as usize
    } else if level == 2 {
        ((vaddr >> 21) & 0x1FF) as usize
    } else {
        ((vaddr >> 12) & 0x1FF) as usize
    }
}

/// A fresh, all-absent entry array.
fn zeroed_entries() -> (v: Vec<u64>)
    ensures
        v@ == Seq::new(ENTRY_COUNT as nat, |i: int| 0u64),
{
    let mut v: Vec<u64> = Vec::new();
    let mut i: usize = 0;
    while i < ENTRY_COUNT
        invariant
            i <= ENTRY_COUNT,
            v@ == Seq::new(i as nat, |j: int| 0u64),
        decreases ENTRY_COUNT - i,
    {
        v.push(0);
        i = i + 1;
        proof {
            assert(v@ =~= Seq::new(i as nat, |j: int| 0u64));
        }
    }
    v
}

impl Pagemap {
    /// Back a new page-table node of the given level with a frame from the
    /// pool, zero-filled so every entry starts absent. Fails with
    /// `OutOfPages` exactly when the pool is empty.
    pub fn new(mem: &mut PtMemory, fl: &mut Freelist, level: u8) -> (r: Result<
        Pagemap,
        MemoryError,
    >)
        requires
            mem_wf(old(mem)@),
            freelist_wf(old(fl)@),
            fresh_for(old(fl)@, old(mem)@),
            1 <= level <= 4,
        ensures
            mem_wf(final(mem)@),
            freelist_wf(final(fl)@),
            fresh_for(final(fl)@, final(mem)@),
            old(fl)@.len() == 0 ==> r == Err::<Pagemap, MemoryError>(MemoryError::OutOfPages)
                && final(mem)@ == old(mem)@ && final(fl)@ == old(fl)@,
            old(fl)@.len() > 0 ==> r is Ok && {
                let pm = r->Ok_0;
                &&& pm.level == level
                &&& pm.addr == old(fl)@.last()
                &&& !old(mem)@.contains_key(pm.addr)
                &&& final(fl)@ == old(fl)@.drop_last()
                &&& final(mem)@.dom() == old(mem)@.dom().insert(pm.addr)
                &&& final(mem)@[pm.addr].level == level
                &&& final(mem)@[pm.addr].entries@ == Seq::new(ENTRY_COUNT as nat, |i: int| 0u64)
                &&& forall|b: u64|
                    #[trigger] old(mem)@.contains_key(b) ==> b != pm.addr && final(mem)@[b] == old(mem)@[b]
                &&& parentless(final(mem)@, pm.addr)
                &&& valid_node(final(mem)@, pm)
            },
    {
        let address = match allocate_page(fl) {
            Ok(a) => a,
            Err(e) => {
                return Err(e);
            },
        };
        let node = PtNode { level, entries: zeroed_entries() };
        mem.nodes.insert(address, node);
        proof {
            let m0 = old(mem)@;
            let m1 = mem@;
            assert(m1 == m0.insert(address, node));
            assert(!m0.contains_key(address)) by {
                assert(old(fl)@[old(fl)@.len() - 1] == address);
            }
            assert(m1.dom() =~= m0.dom().insert(address));
            // every old interior entry is unchanged, and none of them named
            // the fresh frame, since all old children lie in the old memory
            assert forall|a: u64, i: int| #[trigger] interior_present(m1, a, i) && a != address
                implies interior_present(m0, a, i) && child_of(m1, a, i) == child_of(m0, a, i) by {
                assert(m1[a] == m0[a]);
            }
            assert forall|a: u64, i: int| #[trigger] interior_present(m1, a, i)
                implies m1.contains_key(child_of(m1, a, i)) && m1[child_of(m1, a, i)].level + 1
                == m1[a].level && child_of(m1, a, i) != address by {
                if a == address {
                    assert(m1[a].entries@[i] == 0u64);
                    assert(!entry_present(0u64)) by (bit_vector);
                } else {
                    assert(interior_present(m0, a, i));
                    assert(m0.contains_key(child_of(m0, a, i)));
                    assert(m1[child_of(m1, a, i)] == m0[child_of(m0, a, i)]);
                }
            }
            assert forall|a: u64, i: int, b: u64, j: int|
                #[trigger] interior_present(m1, a, i) && #[trigger] interior_present(m1, b, j)
                    && child_of(m1, a, i) == child_of(m1, b, j) implies a == b && i == j by {
                if a == address {
                    assert(m1[a].entries@[i] == 0u64);
                    assert(!entry_present(0u64)) by (bit_vector);
                }
                if b == address {
                    assert(m1[b].entries@[j] == 0u64);
                    assert(!entry_present(0u64)) by (bit_vector);
                }
                assert(m1[a] == m0[a] && m1[b] == m0[b]);
                assert(interior_present(m0, a, i) && interior_present(m0, b, j));
            }
            assert(mem_wf(m1));
            assert(parentless(m1, address));
            assert(freelist_wf(fl@));
            assert forall|i: int| 0 <= i < fl@.len() implies !m1.contains_key(#[trigger] fl@[i]) by {
                assert(fl@[i] == old(fl)@[i]);
                assert(fl@[i] != address);
            }
        }
        Ok(Pagemap { level, addr: address })
    }

    /// Read the entry at `entry` of this node: the child node one level
    /// down (or, on a level-1 node, the mapped frame) and the entry's
    /// flags; `NotPresent` if the entry's present bit is clear, and
    /// `MapTooDeep` on a level-0 handle, which no walk may descend.
    pub fn get_mapping(&self, mem: &PtMemory, entry: usize) -> (r: Result<
        (Pagemap, u64),
        MemoryError,
    >)
        requires
            mem_wf(mem@),
            entry < ENTRY_COUNT,
            self.level >= 1 ==> valid_node(mem@, *self),
        ensures
            self.level == 0 ==> r == Err::<(Pagemap, u64), MemoryError>(MemoryError::MapTooDeep),
            self.level >= 1 ==> {
                let e = mem@[self.addr].entries@[entry as int];
                if entry_present(e) {
                    r == Ok::<(Pagemap, u64), MemoryError>(
                        (Pagemap { level: (self.level - 1) as u8, addr: entry_addr(e) }, entry_flags(e)),
                    )
                } else {
                    r == Err::<(Pagemap, u64), MemoryError>(MemoryError::NotPresent)
                }
            },
            self.level >= 2 && r is Ok ==> valid_node(mem@, r->Ok_0.0) && interior_present(
                mem@,
                self.addr,
                entry as int,
            ),
    {
        if self.level == 0 {
            return Err(MemoryError::MapTooDeep);
        }
        let node = match mem.nodes.get(&self.addr) {
            Some(n) => n,
            // the handle names an existing node, so the read cannot miss
            None => unreached(),
        };
        let entdata = node.entries[entry];
        let flags = entdata & FLAGS_MASK;
        proof {
            assert(*node == mem@[self.addr]);
            assert(entdata == mem@[self.addr].entries@[entry as int]);
            let e = entdata;
            assert((e & 0xFFF) & 1 == e & 1 && (e & 1 == 0 || e & 1 == 1)) by (bit_vector);
        }
        if flags & 1 == 0 {
            return Err(MemoryError::NotPresent);
        }
        let addr = entdata & ADDR_MASK;
        proof {
            if self.level >= 2 {
                assert(interior_present(mem@, self.addr, entry as int));
            }
        }
        Ok((Pagemap { level: self.level - 1, addr }, flags))
    }

    /// Write the entry at `entry` of this node to `mapping | flags` and
    /// hand back the handle one level down. On an interior node a present
    /// entry being installed must name a sound, parentless node one level
    /// below, which is how `new_mapping` uses it; on a level-1 node the
    /// write is the leaf mapping itself.
    pub fn set_mapping(&self, mem: &mut PtMemory, entry: usize, mapping: u64, flags: u64) -> (r:
        Result<Pagemap, MemoryError>)
        requires
            mem_wf(old(mem)@),
            entry < ENTRY_COUNT,
            self.level >= 1 ==> valid_node(old(mem)@, *self),
            mapping & FLAGS_MASK == 0,
            flags & ADDR_MASK == 0,
            self.level >= 2 && flags & 1 == 1 ==> old(mem)@.contains_key(mapping) && old(mem)@[mapping].level + 1 == self.level && parentless(old(mem)@, mapping),
        ensures
            self.level == 0 ==> r == Err::<Pagemap, MemoryError>(MemoryError::MapTooDeep) && final(mem)@ == old(mem)@,
            self.level >= 1 ==> {
                &&& r == Ok::<Pagemap, MemoryError>(
                    Pagemap { level: (self.level - 1) as u8, addr: mapping },
                )
                &&& final(mem)@.dom() == old(mem)@.dom()
                &&& final(mem)@[self.addr].level == self.level
                &&& final(mem)@[self.addr].entries@ == old(mem)@[self.addr].entries@.update(
                    entry as int,
                    mapping | flags,
                )
                &&& forall|b: u64|
                    #[trigger] old(mem)@.contains_key(b) && b != self.addr ==> final(mem)@[b]
                        == old(mem)@[b]
                &&& mem_wf(final(mem)@)
            },
    {
        if self.level == 0 {
            return Err(MemoryError::MapTooDeep);
        }
        let mut node = match mem.nodes.remove(&self.addr) {
            Some(n) => n,
            // the handle names an existing node, so the take cannot miss
            None => unreached(),
        };
        let value = mapping | flags;
        node.entries[entry] = value;
        let ghost upd = node;
        mem.nodes.insert(self.addr, node);
        proof {
            let m0 = old(mem)@;
            let m1 = mem@;
            let sa = self.addr;
            let ei = entry as int;
            assert(m1 =~= m0.insert(sa, upd));
            assert(m1.dom() =~= m0.dom());
            assert((mapping | flags) & 1 == flags & 1) by (bit_vector)
                requires
                    mapping & 0xFFFu64 == 0,
            ;
            assert((mapping | flags) & 0xFFFF_FFFF_FFFF_F000u64 == mapping) by (bit_vector)
                requires
                    mapping & 0xFFFu64 == 0 && flags & 0xFFFF_FFFF_FFFF_F000u64 == 0,
            ;
            // unchanged nodes keep their interior entries
            assert forall|a: u64, i: int| #[trigger] interior_present(m1, a, i) && !(a == sa && i
                == ei) implies interior_present(m0, a, i) && child_of(m1, a, i) == child_of(
                m0,
                a,
                i,
            ) by {
                if a == sa {
                    assert(m1[a].entries@[i] == m0[a].entries@[i]);
                } else {
                    assert(m1[a] == m0[a]);
                }
            }
            assert forall|a: u64| #[trigger] m1.contains_key(a) implies node_wf(m1[a]) by {
                if a != sa {
                    assert(m1[a] == m0[a]);
                }
            }
            assert forall|a: u64, i: int| #[trigger] interior_present(m1, a, i)
                implies m1.contains_key(child_of(m1, a, i)) && m1[child_of(m1, a, i)].level + 1
                == m1[a].level by {
                if a == sa && i == ei {
                    assert(entry_present(mapping | flags));
                    assert(flags & 1 == 1);
                    assert(child_of(m1, a, i) == mapping);
                    assert(m1[a].level == self.level);
                    if mapping == sa {
                        assert(m0[mapping].level + 1 == self.level && m0[sa].level == self.level);
                    }
                    assert(m1[mapping] == m0[mapping] || mapping == sa);
                    assert(m1[mapping].level + 1 == self.level);
                } else {
                    assert(interior_present(m0, a, i));
                    let c = child_of(m0, a, i);
                    assert(m0.contains_key(c) && m0[c].level + 1 == m0[a].level);
                    if c != sa {
                        assert(m1[c] == m0[c]);
                    }
                    assert(m1[a].level == m0[a].level);
                }
            }
            assert forall|a: u64, i: int, b: u64, j: int|
                #[trigger] interior_present(m1, a, i) && #[trigger] interior_present(m1, b, j)
                    && child_of(m1, a, i) == child_of(m1, b, j) implies a == b && i == j by {
                let newc = a == sa && i == ei;
                let newd = b == sa && j == ei;
                if newc && newd {
                } else if newc {
                    assert(interior_present(m0, b, j) && child_of(m1, b, j) == child_of(m0, b, j));
                    assert(flags & 1 == 1);
                    assert(child_of(m1, a, i) == mapping);
                    assert(parentless(m0, mapping));
                } else if newd {
                    assert(interior_present(m0, a, i) && child_of(m1, a, i) == child_of(m0, a, i));
                    assert(flags & 1 == 1);
                    assert(child_of(m1, b, j) == mapping);
                    assert(parentless(m0, mapping));
                } else {
                    assert(interior_present(m0, a, i) && interior_present(m0, b, j));
                    assert(child_of(m1, a, i) == child_of(m0, a, i));
                    assert(child_of(m1, b, j) == child_of(m0, b, j));
                }
            }
            assert(mem_wf(m1));
        }
        Ok(Pagemap { level: self.level - 1, addr: mapping })
    }

    /// Return the child node under `entry`, creating it if the entry is
    /// absent: a fresh frame is taken from the pool, zero-filled, and
    /// installed with the given flags. A present entry is reused as it
    /// stands — repeated mapping along one path allocates nothing new.
    pub fn new_mapping(&self, mem: &mut PtMemory, fl: &mut Freelist, entry: usize, flags: u64) -> (r:
        Result<Pagemap, MemoryError>)
        requires
            mem_wf(old(mem)@),
            freelist_wf(old(fl)@),
            fresh_for(old(fl)@, old(mem)@),
            2 <= self.level <= 4,
            valid_node(old(mem)@, *self),
            entry < ENTRY_COUNT,
            flags & ADDR_MASK == 0,
            flags & 1 == 1,
        ensures
            mem_wf(final(mem)@),
            freelist_wf(final(fl)@),
            fresh_for(final(fl)@, final(mem)@),
            valid_node(final(mem)@, *self),
            ({
                let e0 = old(mem)@[self.addr].entries@[entry as int];
                if entry_present(e0) {
                    &&& r == Ok::<Pagemap, MemoryError>(
                        Pagemap { level: (self.level - 1) as u8, addr: entry_addr(e0) },
                    )
                    &&& final(mem)@ == old(mem)@
                    &&& final(fl)@ == old(fl)@
                } else if old(fl)@.len() == 0 {
                    &&& r == Err::<Pagemap, MemoryError>(MemoryError::OutOfPages)
                    &&& final(mem)@ == old(mem)@
                    &&& final(fl)@ == old(fl)@
                } else {
                    let pm = r->Ok_0;
                    &&& r is Ok
                    &&& pm.level == self.level - 1
                    &&& pm.addr == old(fl)@.last()
                    &&& !old(mem)@.contains_key(pm.addr)
                    &&& final(fl)@ == old(fl)@.drop_last()
                    &&& final(mem)@.dom() == old(mem)@.dom().insert(pm.addr)
                    &&& final(mem)@[self.addr].level == self.level
                    &&& final(mem)@[self.addr].entries@ == old(mem)@[self.addr].entries@.update(
                        entry as int,
                        pm.addr | flags,
                    )
                    &&& final(mem)@[pm.addr].level == self.level - 1
                    &&& final(mem)@[pm.addr].entries@ == Seq::new(ENTRY_COUNT as nat, |i: int| 0u64)
                    &&& forall|b: u64|
                        #[trigger] old(mem)@.contains_key(b) && b != self.addr ==> final(mem)@[b]
                            == old(mem)@[b]
                }
            }),
            r is Ok ==> {
                let pm = r->Ok_0;
                &&& pm.level == self.level - 1
                &&& valid_node(final(mem)@, pm)
                &&& entry_present(final(mem)@[self.addr].entries@[entry as int])
                &&& entry_addr(final(mem)@[self.addr].entries@[entry as int]) == pm.addr
            },
            r is Err ==> r == Err::<Pagemap, MemoryError>(MemoryError::OutOfPages) && final(mem)@
                == old(mem)@ && final(fl)@ == old(fl)@ && !entry_present(
                old(mem)@[self.addr].entries@[entry as int],
            ),
    {
        match self.get_mapping(mem, entry) {
            Ok(mapping) => {
                return Ok(mapping.0);
            },
            Err(_) => {},
        }
        let page = match Pagemap::new(mem, fl, self.level - 1) {
            Ok(p) => p,
            Err(e) => {
                return Err(e);
            },
        };
        let ghost mmid = mem@;
        proof {
            let pa = page.addr;
            assert(pa % FRAME_SIZE == 0) by {
                assert(old(fl)@[old(fl)@.len() - 1] == pa);
            }
            assert(pa & 0xFFFu64 == 0) by (bit_vector)
                requires
                    pa % 4096u64 == 0,
            ;
            assert(mem@[self.addr] == old(mem)@[self.addr]);
        }
        let r = self.set_mapping(mem, entry, page.addr, flags);
        proof {
            let m0 = old(mem)@;
            let m1 = mem@;
            assert(m1.dom() =~= m0.dom().insert(page.addr));
            assert forall|b: u64| #[trigger] m0.contains_key(b) && b != self.addr implies m1[b]
                == m0[b] by {
                assert(b != page.addr);
                assert(mmid.contains_key(b) && mmid[b] == m0[b]);
                assert(m1[b] == mmid[b]);
            }
            assert(mmid[self.addr] == m0[self.addr]);
            assert(m1[self.addr].entries@ == m0[self.addr].entries@.update(
                entry as int,
                page.addr | flags,
            ));
            assert forall|i: int| 0 <= i < fl@.len() implies !m1.contains_key(#[trigger] fl@[i]) by {
                assert(fl@[i] == old(fl)@.drop_last()[i]);
            }
            assert(entry_addr(m1[self.addr].entries@[entry as int]) == page.addr) by {
                let pa = page.addr;
                assert(pa & 0xFFFu64 == 0) by (bit_vector)
                    requires
                        pa % 4096u64 == 0,
                ;
                assert((pa | flags) & 0xFFFF_FFFF_FFFF_F000u64 == pa) by (bit_vector)
                    requires
                        pa & 0xFFFu64 == 0 && flags & 0xFFFF_FFFF_FFFF_F000u64 == 0,
                ;
            }
            assert(entry_present(m1[self.addr].entries@[entry as int])) by {
                let pa = page.addr;
                assert(pa & 0xFFFu64 == 0) by (bit_vector)
                    requires
                        pa % 4096u64 == 0,
                ;
                assert((pa | flags) & 1 == flags & 1) by (bit_vector)
                    requires
                        pa & 0xFFFu64 == 0,
                ;
            }
        }
        r
    }

    /// Map the page at virtual address `vaddr` to the frame at `paddr`
    /// with the given flags: walk levels 4 to 2, creating any missing
    /// intermediate node from the frame pool, then write the leaf entry
    /// `paddr | flags`.
    ///
    /// Only a level-4 root may be mapped through (`InvalidMap` otherwise).
    /// With at least 3 free frames the call always succeeds; it fails
    /// with `OutOfPages` only when a missing intermediate node finds the
    /// pool empty. A walk whose three interior entries already exist
    /// reuses them: nothing is allocated and only the leaf entry changes,
    /// so remapping an address is idempotent on the hierarchy.
    pub fn set_vpage(&self, mem: &mut PtMemory, fl: &mut Freelist, paddr: u64, vaddr: u64, flags: u64) -> (r: Result<Pagemap, MemoryError>)
        requires
            mem_wf(old(mem)@),
            freelist_wf(old(fl)@),
            fresh_for(old(fl)@, old(mem)@),
            self.level == 4 ==> valid_node(old(mem)@, *self),
            paddr % FRAME_SIZE == 0,
            flags & ADDR_MASK == 0,
            flags & 1 == 1,
        ensures
            self.level != 4 ==> r == Err::<Pagemap, MemoryError>(MemoryError::InvalidMap) && final(mem)@ == old(mem)@ && final(fl)@ == old(fl)@,
            self.level == 4 ==> {
                &&& mem_wf(final(mem)@)
                &&& freelist_wf(final(fl)@)
                &&& fresh_for(final(fl)@, final(mem)@)
                &&& valid_node(final(mem)@, *self)
                &&& forall|b: u64| #[trigger] old(mem)@.contains_key(b) ==> final(mem)@.contains_key(b)
                &&& final(fl)@ == old(fl)@.take(final(fl)@.len() as int)
                &&& old(fl)@.len() - 3 <= final(fl)@.len() <= old(fl)@.len()
                &&& (r is Err ==> r == Err::<Pagemap, MemoryError>(MemoryError::OutOfPages)
                    && old(fl)@.len() < 3)
                &&& (r is Ok ==> r == Ok::<Pagemap, MemoryError>((Pagemap { level: 0, addr: paddr }))
                    && lookup_spec(final(mem)@, self.addr, vaddr) == Ok::<(Pagemap, u64), MemoryError>(
                        ((Pagemap { level: 0, addr: paddr }), flags),
                    )
                    && path_present(final(mem)@, self.addr, vaddr))
                &&& (path_present(old(mem)@, self.addr, vaddr) ==> r is Ok && final(fl)@ == old(fl)@
                    && final(mem)@.dom() == old(mem)@.dom())
                &&& (r is Ok ==> forall|v2: u64|
                    vpn(v2) != vpn(vaddr) ==> lookup_spec(final(mem)@, self.addr, v2)
                        == lookup_spec(old(mem)@, self.addr, v2))
            },
    {
        if self.level != 4 {
            return Err(MemoryError::InvalidMap);
        }
        let ghost m0 = mem@;
        let ghost f0 = fl@;
        let entry4 = vpage_index_exec(vaddr, 4);
        let entry3 = vpage_index_exec(vaddr, 3);
        let entry2 = vpage_index_exec(vaddr, 2);
        let entry1 = vpage_index_exec(vaddr, 1);
        let level3 = match self.new_mapping(mem, fl, entry4, flags) {
            Ok(p) => p,
            Err(e) => {
                proof {
                    assert(fl@ =~= old(fl)@.take(fl@.len() as int));
                }
                return Err(e);
            },
        };
        let ghost m1 = mem@;
        let ghost f1 = fl@;
        let level2 = match level3.new_mapping(mem, fl, entry3, flags) {
            Ok(p) => p,
            Err(e) => {
                proof {
                    assert(self.addr != level3.addr);
                    assert(mem@[self.addr] == m1[self.addr]);
                    assert(fl@ =~= old(fl)@.take(fl@.len() as int));
                }
                return Err(e);
            },
        };
        let ghost m2 = mem@;
        let ghost f2 = fl@;
        proof {
            assert(m1.contains_key(self.addr) && m1[self.addr].level == 4);
            assert(m1[level3.addr].level == 3);
            assert(self.addr != level3.addr);
            assert(m2[self.addr] == m1[self.addr]);
            assert(m2[self.addr].level == 4 && m2[level3.addr].level == 3 && m2[level2.addr].level
                == 2);
        }
        let level1 = match level2.new_mapping(mem, fl, entry2, flags) {
            Ok(p) => p,
            Err(e) => {
                proof {
                    assert(mem@[self.addr] == m2[self.addr]);
                    assert(fl@ =~= old(fl)@.take(fl@.len() as int));
                }
                return Err(e);
            },
        };
        let ghost m3 = mem@;
        let ghost f3 = fl@;
        proof {
            assert(self.addr != level2.addr && level3.addr != level2.addr);
            assert(m2.contains_key(self.addr) && m2.contains_key(level3.addr));
            assert(m3[self.addr] == m2[self.addr] && m3[level3.addr] == m2[level3.addr]);
            assert(m3[self.addr].level == 4 && m3[level3.addr].level == 3 && m3[level2.addr].level
                == 2 && m3[level1.addr].level == 1);
            assert(paddr & 0xFFFu64 == 0) by (bit_vector)
                requires
                    paddr % 4096u64 == 0,
            ;
        }
        let r = level1.set_mapping(mem, entry1, paddr, flags);
        proof {
            let m4 = mem@;
            let root = self.addr;
            assert(root != level1.addr && level3.addr != level1.addr && level2.addr
                != level1.addr);
            assert(m3.contains_key(root) && m3.contains_key(level3.addr) && m3.contains_key(
                level2.addr,
            ));
            assert(m4[root] == m3[root] && m4[level3.addr] == m3[level3.addr] && m4[level2.addr]
                == m3[level2.addr]);
            // the walk in the final memory reads exactly the path just built
            assert(entry_present(m4[root].entries@[vpage_index(vaddr, 4)]) && entry_addr(
                m4[root].entries@[vpage_index(vaddr, 4)],
            ) == level3.addr) by {
                assert(m1[root].entries@[vpage_index(vaddr, 4)] == m4[root].entries@[vpage_index(
                    vaddr,
                    4,
                )]);
            }
            assert(entry_present(m4[level3.addr].entries@[vpage_index(vaddr, 3)]) && entry_addr(
                m4[level3.addr].entries@[vpage_index(vaddr, 3)],
            ) == level2.addr) by {
                assert(m2[level3.addr].entries@[vpage_index(vaddr, 3)]
                    == m4[level3.addr].entries@[vpage_index(vaddr, 3)]);
            }
            assert(entry_present(m4[level2.addr].entries@[vpage_index(vaddr, 2)]) && entry_addr(
                m4[level2.addr].entries@[vpage_index(vaddr, 2)],
            ) == level1.addr) by {
                assert(m3[level2.addr].entries@[vpage_index(vaddr, 2)]
                    == m4[level2.addr].entries@[vpage_index(vaddr, 2)]);
            }
            assert(m4[level1.addr].entries@[vpage_index(vaddr, 1)] == (paddr | flags));
            assert(entry_present((paddr | flags)) && entry_addr((paddr | flags)) == paddr
                && entry_flags((paddr | flags)) == flags) by {
                assert((paddr | flags) & 1 == flags & 1 && (paddr | flags)
                    & 0xFFFF_FFFF_FFFF_F000u64 == paddr && (paddr | flags) & 0xFFFu64 == flags)
                    by (bit_vector)
                    requires
                        paddr & 0xFFFu64 == 0 && flags & 0xFFFF_FFFF_FFFF_F000u64 == 0,
                ;
            }
            assert(lookup_spec(m4, root, vaddr) == Ok::<(Pagemap, u64), MemoryError>(
                ((Pagemap { level: 0, addr: paddr }), flags),
            ));
            assert(path_present(m4, root, vaddr));
            assert(fl@ =~= old(fl)@.take(fl@.len() as int));
            // a walk whose interior entries already existed changed no node
            // set and took no frame
            if path_present(m0, root, vaddr) {
                assert(entry_present(m0[root].entries@[vpage_index(vaddr, 4)]));
                assert(m1 == m0 && f1 == f0);
                assert(level3.addr == entry_addr(m0[root].entries@[vpage_index(vaddr, 4)]));
                assert(entry_present(m1[level3.addr].entries@[vpage_index(vaddr, 3)]));
                assert(m2 == m1 && f2 == f1);
                assert(entry_present(m2[level2.addr].entries@[vpage_index(vaddr, 2)]));
                assert(m3 == m2 && f3 == f2);
                assert(fl@ == f0);
                assert(mem@.dom() =~= m0.dom());
            }
            // mapping `vaddr` disturbs the lookup of no other page number
            let l3 = level3.addr;
            let l2 = level2.addr;
            let l1 = level1.addr;
            let i4 = vpage_index(vaddr, 4);
            let i3 = vpage_index(vaddr, 3);
            let i2 = vpage_index(vaddr, 2);
            let i1 = vpage_index(vaddr, 1);
            let b3 = entry_present(m0[root].entries@[i4]);
            let b2 = b3 && entry_present(m0[l3].entries@[i3]);
            let b1 = b2 && entry_present(m0[l2].entries@[i2]);
            if b3 {
                assert(m1 == m0);
                assert(l3 == entry_addr(m0[root].entries@[i4]));
            } else {
                assert(!m0.contains_key(l3));
                assert(m1[l3].entries@[i3] == 0u64);
                assert(!entry_present(0u64)) by (bit_vector);
            }
            if b2 {
                assert(m2 == m1);
                assert(l2 == entry_addr(m0[l3].entries@[i3]));
            } else {
                assert(!m1.contains_key(l2) && !m0.contains_key(l2));
                assert(m2[l2].entries@[i2] == 0u64);
                assert(!entry_present(0u64)) by (bit_vector);
            }
            if b1 {
                assert(m3 == m2);
                assert(l1 == entry_addr(m0[l2].entries@[i2]));
            } else {
                assert(!m2.contains_key(l1) && !m0.contains_key(l1));
            }
            assert(m4[root].level == 4 && m4[l3].level == 3 && m4[l2].level == 2 && m4[l1].level
                == 1);
            assert forall|j: int| 0 <= j < ENTRY_COUNT && j != i4 implies m4[root].entries@[j]
                == m0[root].entries@[j] by {
                assert(m4[root] == m1[root]);
            }
            assert forall|j: int| 0 <= j < ENTRY_COUNT && j != i3 implies m4[l3].entries@[j] == (
            if b3 {
                m0[l3].entries@[j]
            } else {
                0u64
            }) by {
                assert(m4[l3] == m2[l3]);
                assert(m2[l3].entries@[j] == m1[l3].entries@[j]);
            }
            assert forall|j: int| 0 <= j < ENTRY_COUNT && j != i2 implies m4[l2].entries@[j] == (
            if b2 {
                m0[l2].entries@[j]
            } else {
                0u64
            }) by {
                assert(m4[l2] == m3[l2]);
                assert(m3[l2].entries@[j] == m2[l2].entries@[j]);
                if b2 {
                    assert(m2[l2] == m0[l2]);
                } else {
                    assert(m2[l2].entries@[j] == 0u64);
                }
            }
            assert forall|j: int| 0 <= j < ENTRY_COUNT && j != i1 implies m4[l1].entries@[j] == (
            if b1 {
                m0[l1].entries@[j]
            } else {
                0u64
            }) by {
                assert(m4[l1].entries@[j] == m3[l1].entries@[j]);
                if b1 {
                    assert(m3[l1] == m0[l1]);
                } else {
                    assert(m3[l1].entries@[j] == 0u64);
                }
            }
            assert forall|b: u64|
                #[trigger] m0.contains_key(b) && b != root && b != l3 && b != l2 && b != l1
                implies m4.contains_key(b) && m4[b] == m0[b] by {
                assert(m1.contains_key(b) && m1[b] == m0[b]);
                assert(m2.contains_key(b) && m2[b] == m1[b]);
                assert(m3.contains_key(b) && m3[b] == m2[b]);
                assert(m4.contains_key(b) && m4[b] == m3[b]);
            }
            lemma_map_preserves_other_lookups(m0, m4, root, l3, l2, l1, vaddr, b3, b2, b1);
        }
        r
    }

    /// Walk the hierarchy for `vaddr` without creating anything, and
    /// return the mapped frame as a level-0 handle together with the
    /// leaf entry's flags. Any absent entry on the way yields
    /// `NotPresent`; a handle that is not a level-4 root yields
    /// `InvalidMap`.
    pub fn get_vpage(&self, mem: &PtMemory, vaddr: u64) -> (r: Result<(Pagemap, u64), MemoryError>)
        requires
            mem_wf(mem@),
            self.level == 4 ==> valid_node(mem@, *self),
        ensures
            self.level != 4 ==> r == Err::<(Pagemap, u64), MemoryError>(MemoryError::InvalidMap),
            self.level == 4 ==> r == lookup_spec(mem@, self.addr, vaddr),
    {
        if self.level != 4 {
            return Err(MemoryError::InvalidMap);
        }
        let entry4 = vpage_index_exec(vaddr, 4);
        let entry3 = vpage_index_exec(vaddr, 3);
        let entry2 = vpage_index_exec(vaddr, 2);
        let entry1 = vpage_index_exec(vaddr, 1);
        let level3 = match self.get_mapping(mem, entry4) {
            Ok(m) => m.0,
            Err(e) => {
                return Err(e);
            },
        };
        let level2 = match level3.get_mapping(mem, entry3) {
            Ok(m) => m.0,
            Err(e) => {
                return Err(e);
            },
        };
        let level1 = match level2.get_mapping(mem, entry2) {
            Ok(m) => m.0,
            Err(e) => {
                return Err(e);
            },
        };
        level1.get_mapping(mem, entry1)
    }
}

} // verus!
