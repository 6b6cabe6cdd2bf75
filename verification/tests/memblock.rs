use wcore::mm::memblock::{MemBlock, MemBlockRegion};
use wcore::mm::PhysicalAddr;

fn regions(v: &[MemBlockRegion]) -> Vec<(u64, u64)> {
    v.iter().map(|r| (r.base.0, r.size)).collect()
}

fn memory(mb: &MemBlock<8, 8>) -> Vec<(u64, u64)> {
    regions(&mb.memory.region[0..mb.memory.len])
}

fn reserved(mb: &MemBlock<8, 8>) -> Vec<(u64, u64)> {
    regions(&mb.reserved.region[0..mb.reserved.len])
}

#[test]
fn reserving_the_head_of_memory_trims_it() {
    let mut mb: MemBlock<8, 8> = MemBlock::new();
    assert!(mb.can_add(PhysicalAddr::new(0x8000_0000), 0x0800_0000));
    mb.add(PhysicalAddr::new(0x8000_0000), 0x0800_0000);
    assert!(mb.can_reserve(PhysicalAddr::new(0x8000_0000), 0x0020_0000));
    let outside = mb.reserve(PhysicalAddr::new(0x8000_0000), 0x0020_0000);
    assert!(!outside);
    assert_eq!(memory(&mb), vec![(0x8020_0000, 0x07e0_0000)]);
    assert_eq!(reserved(&mb), vec![]);
}

#[test]
fn add_merges_with_both_neighbours() {
    let mut mb: MemBlock<8, 8> = MemBlock::new();
    mb.add(PhysicalAddr::new(0x1000), 0x1000);
    mb.add(PhysicalAddr::new(0x3000), 0x1000);
    assert_eq!(memory(&mb), vec![(0x1000, 0x1000), (0x3000, 0x1000)]);
    mb.add(PhysicalAddr::new(0x2000), 0x1000);
    assert_eq!(memory(&mb), vec![(0x1000, 0x3000)]);
}

#[test]
fn add_merges_with_one_neighbour_or_none() {
    let mut mb: MemBlock<8, 8> = MemBlock::new();
    mb.add(PhysicalAddr::new(0x4000), 0x1000);
    mb.add(PhysicalAddr::new(0x5000), 0x1000);
    assert_eq!(memory(&mb), vec![(0x4000, 0x2000)]);
    mb.add(PhysicalAddr::new(0x3000), 0x1000);
    assert_eq!(memory(&mb), vec![(0x3000, 0x3000)]);
    mb.add(PhysicalAddr::new(0x1000), 0x1000);
    assert_eq!(memory(&mb), vec![(0x1000, 0x1000), (0x3000, 0x3000)]);
    mb.add(PhysicalAddr::new(0x8000), 0x1000);
    assert_eq!(memory(&mb), vec![(0x1000, 0x1000), (0x3000, 0x3000), (0x8000, 0x1000)]);
}

#[test]
fn add_is_refused_on_overlap() {
    let mut mb: MemBlock<8, 8> = MemBlock::new();
    mb.add(PhysicalAddr::new(0x4000), 0x2000);
    assert!(!mb.can_add(PhysicalAddr::new(0x4000), 0x1000));
    assert!(!mb.can_add(PhysicalAddr::new(0x5000), 0x1000));
    assert!(!mb.can_add(PhysicalAddr::new(0x3000), 0x1001));
    assert!(mb.can_add(PhysicalAddr::new(0x3000), 0x1000));
    assert!(mb.can_add(PhysicalAddr::new(0x6000), 0x1000));
    assert!(!mb.can_add(PhysicalAddr::new(0xffff_ffff_ffff_f000), 0x2000));
}

#[test]
fn add_is_refused_on_reserved_and_when_full() {
    let mut mb: MemBlock<2, 2> = MemBlock::new();
    mb.reserve(PhysicalAddr::new(0x9000), 0x1000);
    assert!(!mb.can_add(PhysicalAddr::new(0x8000), 0x2000));
    mb.add(PhysicalAddr::new(0x1000), 0x1000);
    mb.add(PhysicalAddr::new(0x3000), 0x1000);
    assert!(!mb.can_add(PhysicalAddr::new(0x5000), 0x1000));
    assert!(mb.can_add(PhysicalAddr::new(0x4000), 0x1000));
}

#[test]
fn reserving_the_tail_trims_it() {
    let mut mb: MemBlock<8, 8> = MemBlock::new();
    mb.add(PhysicalAddr::new(0x1000), 0x4000);
    assert!(!mb.reserve(PhysicalAddr::new(0x4000), 0x1000));
    assert_eq!(memory(&mb), vec![(0x1000, 0x3000)]);
    assert_eq!(reserved(&mb), vec![]);
}

#[test]
fn reserving_the_inside_splits() {
    let mut mb: MemBlock<8, 8> = MemBlock::new();
    mb.add(PhysicalAddr::new(0x1000), 0x4000);
    assert!(!mb.reserve(PhysicalAddr::new(0x2000), 0x1000));
    assert_eq!(memory(&mb), vec![(0x1000, 0x1000), (0x3000, 0x2000)]);
}

#[test]
fn reserving_a_whole_region_takes_it_out() {
    let mut mb: MemBlock<8, 8> = MemBlock::new();
    mb.add(PhysicalAddr::new(0x1000), 0x1000);
    mb.add(PhysicalAddr::new(0x3000), 0x1000);
    assert!(!mb.reserve(PhysicalAddr::new(0x1000), 0x1000));
    assert_eq!(memory(&mb), vec![(0x3000, 0x1000)]);
}

#[test]
fn reserving_outside_memory_is_recorded() {
    let mut mb: MemBlock<8, 8> = MemBlock::new();
    mb.add(PhysicalAddr::new(0x1000), 0x1000);
    assert!(mb.reserve(PhysicalAddr::new(0x8000), 0x1000));
    assert!(mb.reserve(PhysicalAddr::new(0x9000), 0x1000));
    assert_eq!(memory(&mb), vec![(0x1000, 0x1000)]);
    assert_eq!(reserved(&mb), vec![(0x8000, 0x2000)]);
}

#[test]
fn reserve_is_refused_across_regions() {
    let mut mb: MemBlock<8, 8> = MemBlock::new();
    mb.add(PhysicalAddr::new(0x1000), 0x1000);
    mb.add(PhysicalAddr::new(0x3000), 0x1000);
    assert!(!mb.can_reserve(PhysicalAddr::new(0x1000), 0x2000));
    assert!(!mb.can_reserve(PhysicalAddr::new(0x1800), 0x1000));
    assert!(!mb.can_reserve(PhysicalAddr::new(0x2800), 0x1000));
    assert!(mb.can_reserve(PhysicalAddr::new(0x2000), 0x1000));
    mb.reserve(PhysicalAddr::new(0x8000), 0x1000);
    assert!(!mb.can_reserve(PhysicalAddr::new(0x8800), 0x1000));
}

#[test]
fn allocate_carves_from_the_end_of_the_lowest_region_that_fits() {
    let mut mb: MemBlock<8, 8> = MemBlock::new();
    mb.add(PhysicalAddr::new(0x1000), 0x1000);
    mb.add(PhysicalAddr::new(0x1_0000), 0x1_0000);
    assert_eq!(mb.allocate(0x2800), Some(PhysicalAddr::new(0x1_d000)));
    assert_eq!(memory(&mb), vec![(0x1000, 0x1000), (0x1_0000, 0xd000)]);
    assert_eq!(mb.allocate(0x1000), Some(PhysicalAddr::new(0x1000)));
    assert_eq!(memory(&mb), vec![(0x1_0000, 0xd000)]);
    assert_eq!(mb.allocate(0x10_0000), None);
    assert_eq!(memory(&mb), vec![(0x1_0000, 0xd000)]);
}

#[test]
fn free_all_hands_out_every_region() {
    let mut mb: MemBlock<8, 8> = MemBlock::new();
    mb.add(PhysicalAddr::new(0x1000), 0x1000);
    mb.add(PhysicalAddr::new(0x3000), 0x2000);
    let all = mb.free_all();
    assert_eq!(regions(&all), vec![(0x1000, 0x1000), (0x3000, 0x2000)]);
    assert_eq!(memory(&mb), vec![]);
}

#[test]
fn search_and_check() {
    let mut mb: MemBlock<8, 8> = MemBlock::new();
    mb.add(PhysicalAddr::new(0x1000), 0x1000);
    mb.add(PhysicalAddr::new(0x3000), 0x1000);
    mb.add(PhysicalAddr::new(0x5000), 0x1000);
    assert_eq!(mb.memory.search(PhysicalAddr::new(0x3000)), Ok(1));
    assert_eq!(mb.memory.search(PhysicalAddr::new(0x0)), Err(0));
    assert_eq!(mb.memory.search(PhysicalAddr::new(0x4000)), Err(2));
    assert_eq!(mb.memory.search(PhysicalAddr::new(0x9000)), Err(3));
    let r = |base: u64, size: u64| MemBlockRegion { base: PhysicalAddr::new(base), size };
    assert_eq!(mb.memory.check(&r(0x2000, 0x1000)), Ok(1));
    assert_eq!(mb.memory.check(&r(0x3000, 0x10)), Err(1));
    assert_eq!(mb.memory.check(&r(0x1800, 0x100)), Err(0));
    assert_eq!(mb.memory.check(&r(0x2000, 0x1001)), Err(1));
    assert_eq!(mb.memory.get(2).base.0, 0x5000);
}
