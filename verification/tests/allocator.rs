use rotom_core::memory::{
    allocate_page, build_freelist, deallocate_page, DirectMap, Freelist, MemRegion, MemoryError,
    RegionKind,
};

fn sample_map() -> Vec<MemRegion> {
    vec![
        MemRegion { base: 0x1000, len: 0x3000, kind: RegionKind::Usable },
        MemRegion { base: 0x10000, len: 0x1000, kind: RegionKind::Reserved },
        MemRegion { base: 0x100000, len: 0x2000, kind: RegionKind::Usable },
    ]
}

#[test]
fn conservation_counts_usable_frames() {
    // 0x3000 + 0x2000 usable bytes = 5 frames of 4096 bytes
    let dm = DirectMap::new(0xffff_8000_0000_0000);
    let mut fl = build_freelist(&dm, &sample_map());
    let mut issued = 0;
    while let Ok(_) = allocate_page(&mut fl) {
        issued += 1;
    }
    assert_eq!(issued, 5);
    assert_eq!(allocate_page(&mut fl), Err(MemoryError::OutOfPages));
}

#[test]
fn conservation_with_interleaved_frees() {
    let dm = DirectMap::new(0);
    let mut fl = build_freelist(&dm, &sample_map());
    let a = allocate_page(&mut fl).unwrap();
    let b = allocate_page(&mut fl).unwrap();
    deallocate_page(&mut fl, a);
    let c = allocate_page(&mut fl).unwrap();
    deallocate_page(&mut fl, b);
    deallocate_page(&mut fl, c);
    // everything is back: still exactly 5 successes before exhaustion
    let mut issued = 0;
    while let Ok(_) = allocate_page(&mut fl) {
        issued += 1;
    }
    assert_eq!(issued, 5);
}

#[test]
fn lifo_reuse_returns_the_freed_frame() {
    let dm = DirectMap::new(0);
    let mut fl = build_freelist(&dm, &sample_map());
    let f = allocate_page(&mut fl).unwrap();
    deallocate_page(&mut fl, f);
    assert_eq!(allocate_page(&mut fl), Ok(f));
}

#[test]
fn no_double_issue() {
    let dm = DirectMap::new(0);
    let mut fl = build_freelist(&dm, &sample_map());
    let built: Vec<u64> = vec![0x1000, 0x2000, 0x3000, 0x100000, 0x101000];
    let mut got: Vec<u64> = Vec::new();
    while let Ok(f) = allocate_page(&mut fl) {
        got.push(f);
    }
    for (i, f) in got.iter().enumerate() {
        assert!(built.contains(f));
        for g in got[i + 1..].iter() {
            assert_ne!(f, g);
        }
    }
}

#[test]
fn allocate_pops_most_recently_built_frame() {
    // frames are stacked region by region, ascending within a region
    let dm = DirectMap::new(0);
    let mut fl = build_freelist(&dm, &sample_map());
    assert_eq!(allocate_page(&mut fl), Ok(0x101000));
    assert_eq!(allocate_page(&mut fl), Ok(0x100000));
    assert_eq!(allocate_page(&mut fl), Ok(0x3000));
}

#[test]
fn empty_pool_is_out_of_pages() {
    let mut fl = Freelist::new();
    assert_eq!(allocate_page(&mut fl), Err(MemoryError::OutOfPages));
}

#[test]
fn reserved_regions_feed_nothing() {
    let dm = DirectMap::new(0);
    let regions = vec![MemRegion { base: 0x5000, len: 0x4000, kind: RegionKind::Reserved }];
    let mut fl = build_freelist(&dm, &regions);
    assert_eq!(allocate_page(&mut fl), Err(MemoryError::OutOfPages));
}

#[test]
fn direct_map_offset_is_applied() {
    let dm = DirectMap::new(0xffff_8000_0000_0000);
    assert_eq!(dm.virt_of(0x1000), 0xffff_8000_0000_1000);
}

#[test]
fn error_descriptions() {
    assert_eq!(MemoryError::OutOfPages.description(), "out of memory pages");
    assert_eq!(MemoryError::NotPresent.description(), "mapping not present");
    assert_eq!(MemoryError::InvalidMap.description(), "wrong page map used");
    assert_eq!(MemoryError::MapTooDeep.description(), "page mapped too far");
}
