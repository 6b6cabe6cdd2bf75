use wcore::mm::boot::{free_regions, init_early, InitError};
use wcore::mm::buddy::buddy::Buddy;
use wcore::mm::memblock::MemBlockRegion;
use wcore::mm::memory::Memory;
use wcore::mm::page::PageFrame;
use wcore::mm::{PhysicalAddr, VirtualAddr};
use wcore::sync::Spin;

const K: u64 = 0xffff_ffc0_0000_0000;

#[test]
fn boot_hands_what_is_left_to_the_buddy() {
    let core = init_early(PhysicalAddr::new(0x8000_0000), 8 << 20, VirtualAddr::new(K + 0x8010_0000), 0);
    let mut core = match core {
        Ok(c) => c,
        Err(e) => panic!("{:?}", e),
    };
    assert_eq!(core.pages.pages.len(), 2048);
    assert_eq!(core.mem.words.len(), (8 << 20) / 8);
    assert_eq!(core.memblock.memory.len, 0);
    assert_eq!(core.memblock.reserved.len, 0);
    assert_eq!(core.freed.len(), 1);
    assert_eq!((core.freed[0].base.0, core.freed[0].size), (0x8010_0000, 0x6d_8000));
    let mut total = 0u64;
    for k in 0..10 {
        let mut it = core.buddy.data.free_list[k].iter();
        while let Some(a) = it.next(&core.mem) {
            assert!(a >= K + 0x8010_0000 && a + (4096 << k) <= K + 0x807d_8000);
            total += 1 << k;
        }
    }
    assert_eq!(total, 0x6d8);
    let p = core.heap._alloc(64, 0, &mut core.pages, &mut core.buddy, &mut core.mem);
    assert_ne!(p, 0);
    assert_eq!(PageFrame::new((p - K) >> 12).get_page(&core.pages).slub, Some(3));
}

#[test]
fn boot_errors() {
    let at = |ram: u64, len: u64, end: u64| {
        init_early(PhysicalAddr::new(ram), len, VirtualAddr::new(end), 0).err()
    };
    assert_eq!(at(0x9000_0000, 8 << 20, K + 0x9010_0000), Some(InitError::Misplaced));
    assert_eq!(at(0x8000_0000, 8 << 20, K + 0x7000_0000), Some(InitError::Misplaced));
    assert_eq!(at(0x8000_0000, u64::MAX, K + 0x8010_0000), Some(InitError::Overlap));
    assert_eq!(at(0x8000_0000, 8 << 20, K + 0x8090_0000), Some(InitError::Unsupported));
    assert_eq!(at(0x8000_0000, 8 << 20, K + 0x8080_0000), Some(InitError::NoPages));
    assert_eq!(at(0x8000_0000, 8 << 20, K + 0x807f_0000), Some(InitError::NoPages));
    assert_eq!(at(0x8000_0000, 0x40_0000_0000, K + 0x8010_0000), Some(InitError::OutOfReach));
}

#[test]
fn regions_without_a_whole_frame_or_outside_memory_are_left_out() {
    let mut mem = Memory::new(PhysicalAddr::new(0x8000_0000), 0x10_0000).unwrap();
    let mut buddy: Spin<Buddy<10>> = Spin::new(Buddy::new());
    let r = |base: u64, size: u64| MemBlockRegion { base: PhysicalAddr::new(base), size };
    let regions = vec![
        r(0x8000_0800, 0x1000),
        r(0x8000_2000, 0x2000),
        r(0x8000_8001, 0x2fff),
        r(0x8010_0000, 0x1000),
    ];
    free_regions(&mut buddy, &mut mem, 0, &regions);
    assert_eq!(buddy.data.alloc_pages(&mut mem, 1), Some(PageFrame::new(0x80002)));
    assert_eq!(buddy.data.alloc_pages(&mut mem, 1), None);
    assert_eq!(buddy.data.alloc_pages(&mut mem, 0), Some(PageFrame::new(0x8000a)));
    assert_eq!(buddy.data.alloc_pages(&mut mem, 0), Some(PageFrame::new(0x80009)));
    assert_eq!(buddy.data.alloc_pages(&mut mem, 0), None);
}
