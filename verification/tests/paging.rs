use rotom_core::memory::{
    build_freelist, DirectMap, MemRegion, MemoryError, Pagemap, PtMemory, RegionKind,
};

fn pool_of(frames: u64) -> rotom_core::memory::Freelist {
    let dm = DirectMap::new(0);
    let regions = vec![MemRegion {
        base: 0x20_0000,
        len: frames * 4096,
        kind: RegionKind::Usable,
    }];
    build_freelist(&dm, &regions)
}

#[test]
fn mapping_round_trip() {
    let mut fl = pool_of(8);
    let mut mem = PtMemory::new();
    let root = Pagemap::new(&mut mem, &mut fl, 4).unwrap();
    let paddr: u64 = 0x1234_5000;
    let vaddr: u64 = 0xffff_8000_0dea_d000;
    let flags: u64 = 0x3;
    root.set_vpage(&mut mem, &mut fl, paddr, vaddr, flags).unwrap();
    let (leaf, got_flags) = root.get_vpage(&mem, vaddr).unwrap();
    assert_eq!(leaf.addr, paddr);
    assert_eq!(leaf.level, 0);
    assert_eq!(got_flags, flags);
}

#[test]
fn idempotent_remap_updates_leaf_without_allocating() {
    let mut fl = pool_of(8);
    let mut mem = PtMemory::new();
    let root = Pagemap::new(&mut mem, &mut fl, 4).unwrap();
    let vaddr: u64 = 0x0000_7f00_2030_4000;
    root.set_vpage(&mut mem, &mut fl, 0x4000, vaddr, 0x3).unwrap();
    let free_before = fl.frames.len();
    root.set_vpage(&mut mem, &mut fl, 0x8000, vaddr, 0x3).unwrap();
    // the second map reused every intermediate node
    assert_eq!(fl.frames.len(), free_before);
    let (leaf, _) = root.get_vpage(&mem, vaddr).unwrap();
    assert_eq!(leaf.addr, 0x8000);
}

#[test]
fn sibling_pages_share_intermediate_nodes() {
    let mut fl = pool_of(8);
    let mut mem = PtMemory::new();
    let root = Pagemap::new(&mut mem, &mut fl, 4).unwrap();
    let before = fl.frames.len();
    root.set_vpage(&mut mem, &mut fl, 0x4000, 0x0020_0000, 0x3).unwrap();
    // first map built three intermediate levels
    assert_eq!(fl.frames.len(), before - 3);
    root.set_vpage(&mut mem, &mut fl, 0x5000, 0x0020_1000, 0x3).unwrap();
    // the sibling page walked the same path and allocated nothing
    assert_eq!(fl.frames.len(), before - 3);
}

#[test]
fn unmapped_lookup_is_not_present() {
    let mut fl = pool_of(8);
    let mut mem = PtMemory::new();
    let root = Pagemap::new(&mut mem, &mut fl, 4).unwrap();
    assert_eq!(root.get_vpage(&mem, 0xdead_b000), Err(MemoryError::NotPresent));
    // mapping one address leaves every other page number unmapped
    root.set_vpage(&mut mem, &mut fl, 0x4000, 0x0020_0000, 0x3).unwrap();
    assert_eq!(root.get_vpage(&mem, 0x0040_0000), Err(MemoryError::NotPresent));
    assert_eq!(root.get_vpage(&mem, 0xffff_8000_0000_0000), Err(MemoryError::NotPresent));
}

#[test]
fn non_root_handles_are_rejected() {
    let mut fl = pool_of(8);
    let mut mem = PtMemory::new();
    let not_root = Pagemap { level: 3, addr: 0 };
    assert_eq!(not_root.get_vpage(&mem, 0x1000), Err(MemoryError::InvalidMap));
    assert_eq!(
        not_root.set_vpage(&mut mem, &mut fl, 0x1000, 0x2000, 0x3),
        Err(MemoryError::InvalidMap)
    );
}

#[test]
fn mapping_without_frames_is_out_of_pages() {
    let mut fl = pool_of(1);
    let mut mem = PtMemory::new();
    let root = Pagemap::new(&mut mem, &mut fl, 4).unwrap();
    // the pool is exhausted: the walk cannot build its first level
    assert_eq!(
        root.set_vpage(&mut mem, &mut fl, 0x1000, 0x2000, 0x3),
        Err(MemoryError::OutOfPages)
    );
}

#[test]
fn node_creation_without_frames_is_out_of_pages() {
    let mut fl = rotom_core::memory::Freelist::new();
    let mut mem = PtMemory::new();
    assert!(matches!(
        Pagemap::new(&mut mem, &mut fl, 4),
        Err(MemoryError::OutOfPages)
    ));
}

#[test]
fn flags_pass_through_bit_for_bit() {
    let mut fl = pool_of(8);
    let mut mem = PtMemory::new();
    let root = Pagemap::new(&mut mem, &mut fl, 4).unwrap();
    let flags: u64 = 0b1000_0000_0111; // present, writable, user, global
    root.set_vpage(&mut mem, &mut fl, 0xabc000, 0x1234_5000, flags).unwrap();
    let (_, got) = root.get_vpage(&mem, 0x1234_5000).unwrap();
    assert_eq!(got, flags);
}
