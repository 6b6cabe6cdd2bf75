use wcore::mm::allocator::{alloc_pages, free_pages, free_to_buddy};
use wcore::mm::buddy::buddy::{buddy_address, order_bytes, Buddy};
use wcore::mm::memory::Memory;
use wcore::mm::page::PageFrame;
use wcore::mm::PhysicalAddr;
use wcore::sync::Spin;

fn fresh() -> (Buddy<10>, Memory) {
    let mut mem = Memory::new(PhysicalAddr::new(0x8020_0000), 0x20_0000).unwrap();
    let mut buddy: Buddy<10> = Buddy::new();
    buddy.add_free_memory(&mut mem, PageFrame::new(0x80200), PageFrame::new(0x80400));
    (buddy, mem)
}

fn level(buddy: &Buddy<10>, mem: &Memory, k: usize) -> Vec<u64> {
    let mut v = Vec::new();
    let mut it = buddy.free_list[k].iter();
    while let Some(a) = it.next(mem) {
        v.push((a - 0xffff_ffc0_0000_0000) >> 12);
    }
    v
}

fn total(buddy: &Buddy<10>, mem: &Memory) -> u64 {
    (0..10).map(|k| (level(buddy, mem, k).len() as u64) << k).sum()
}

#[test]
fn mod_test() {
    let (buddy, mut mem) = fresh();
    let mut buddy = Spin::new(buddy);
    let page1 = alloc_pages(&mut buddy, &mut mem, 0, 0).unwrap();
    println!("Alloc page {:#x}", page1.0);
    let page2 = alloc_pages(&mut buddy, &mut mem, 0, 0).unwrap();
    println!("Alloc page {:#x}", page2.0);
    let page3 = alloc_pages(&mut buddy, &mut mem, 0, 0).unwrap();
    println!("Alloc page {:#x}", page3.0);
    let page4 = alloc_pages(&mut buddy, &mut mem, 0, 0).unwrap();
    println!("Alloc page {:#x}", page4.0);

    free_pages(&mut buddy, &mut mem, 0, page1, 0);
    free_pages(&mut buddy, &mut mem, 0, page4, 0);

    let page1 = alloc_pages(&mut buddy, &mut mem, 0, 0).unwrap();
    println!("Alloc page {:#x}", page1.0);
    let page2 = alloc_pages(&mut buddy, &mut mem, 0, 0).unwrap();
    println!("Alloc page {:#x}", page2.0);
    let page3 = alloc_pages(&mut buddy, &mut mem, 0, 0).unwrap();
    println!("Alloc page {:#x}", page3.0);
    let page4 = alloc_pages(&mut buddy, &mut mem, 0, 0).unwrap();
    println!("Alloc page {:#x}", page4.0);
    assert!(!buddy.locked);
}

#[test]
fn adding_512_aligned_frames_gives_one_run_of_order_9() {
    let (buddy, mem) = fresh();
    for k in 0..9 {
        assert!(buddy.free_list[k].empty());
    }
    assert_eq!(level(&buddy, &mem, 9), vec![0x80200]);
    assert_eq!(total(&buddy, &mem), 512);
}

#[test]
fn two_allocations_then_two_frees_coalesce() {
    let (mut buddy, mut mem) = fresh();
    assert_eq!(buddy.alloc_pages(&mut mem, 0), Some(PageFrame::new(0x80200)));
    assert_eq!(buddy.alloc_pages(&mut mem, 0), Some(PageFrame::new(0x80201)));
    assert_eq!(total(&buddy, &mem), 510);
    buddy.free_pages(&mut mem, PageFrame::new(0x80200), 0);
    assert_eq!(level(&buddy, &mem, 0), vec![0x80200]);
    buddy.free_pages(&mut mem, PageFrame::new(0x80201), 0);
    assert_eq!(level(&buddy, &mem, 0), vec![]);
    assert_eq!(total(&buddy, &mem), 512);
    assert_eq!(buddy.alloc_pages(&mut mem, 1), Some(PageFrame::new(0x80200)));
}

#[test]
fn coalescing_stops_where_the_buddy_is_in_use() {
    let (mut buddy, mut mem) = fresh();
    let a = buddy.alloc_pages(&mut mem, 0).unwrap();
    let b = buddy.alloc_pages(&mut mem, 0).unwrap();
    let c = buddy.alloc_pages(&mut mem, 1).unwrap();
    assert_eq!((a.0, b.0, c.0), (0x80200, 0x80201, 0x80202));
    buddy.free_pages(&mut mem, a, 0);
    buddy.free_pages(&mut mem, b, 0);
    assert_eq!(level(&buddy, &mem, 0), vec![]);
    assert_eq!(level(&buddy, &mem, 1), vec![0x80200]);
    assert_eq!(total(&buddy, &mem), 510);
}

#[test]
fn splitting_leaves_the_upper_halves() {
    let (mut buddy, mut mem) = fresh();
    assert_eq!(buddy.alloc_pages(&mut mem, 7), Some(PageFrame::new(0x80200)));
    assert_eq!(level(&buddy, &mem, 9), vec![]);
    assert_eq!(level(&buddy, &mem, 8), vec![0x80300]);
    assert_eq!(level(&buddy, &mem, 7), vec![0x80280]);
    assert_eq!(total(&buddy, &mem), 512 - 128);
}

#[test]
fn allocation_fails_when_nothing_is_large_enough() {
    let (mut buddy, mut mem) = fresh();
    assert_eq!(buddy.alloc_pages(&mut mem, 10), None);
    assert_eq!(buddy.alloc_pages(&mut mem, 9), Some(PageFrame::new(0x80200)));
    assert_eq!(buddy.alloc_pages(&mut mem, 0), None);
    let mut empty: Buddy<10> = Buddy::new();
    assert_eq!(empty.alloc_pages(&mut mem, 0), None);
}

#[test]
fn unaligned_range_is_carved_greedily() {
    let mut mem = Memory::new(PhysicalAddr::new(0x8020_0000), 0x20_0000).unwrap();
    let mut buddy: Buddy<10> = Buddy::new();
    buddy.add_free_memory(&mut mem, PageFrame::new(0x80201), PageFrame::new(0x8020c));
    assert_eq!(level(&buddy, &mem, 0), vec![0x80201]);
    assert_eq!(level(&buddy, &mem, 1), vec![0x80202]);
    assert_eq!(level(&buddy, &mem, 2), vec![0x80208, 0x80204]);
    assert_eq!(total(&buddy, &mem), 11);
}

#[test]
fn runs_of_the_highest_order_do_not_merge() {
    let mut mem = Memory::new(PhysicalAddr::new(0x8000_0000), 0x40_0000).unwrap();
    let mut buddy: Buddy<10> = Buddy::new();
    buddy.add_free_memory(&mut mem, PageFrame::new(0x80000), PageFrame::new(0x80400));
    assert_eq!(level(&buddy, &mem, 9), vec![0x80200, 0x80000]);
    let f = buddy.alloc_pages(&mut mem, 9).unwrap();
    assert_eq!(f, PageFrame::new(0x80200));
    assert_eq!(total(&buddy, &mem), 512);
    buddy.free_pages(&mut mem, f, 9);
    assert_eq!(level(&buddy, &mem, 9), vec![0x80200, 0x80000]);
    assert_eq!(total(&buddy, &mem), 1024);
    assert!(buddy.has_run(&mem, 9));
    assert_eq!(buddy.alloc_pages(&mut mem, 9), Some(PageFrame::new(0x80200)));
    assert_eq!(buddy.alloc_pages(&mut mem, 9), Some(PageFrame::new(0x80000)));
    assert!(!buddy.has_run(&mem, 0));
    buddy.free_pages(&mut mem, PageFrame::new(0x80000), 9);
    buddy.free_pages(&mut mem, PageFrame::new(0x80200), 9);
    assert_eq!(level(&buddy, &mem, 9), vec![0x80200, 0x80000]);
    assert_eq!(total(&buddy, &mem), 1024);
}

#[test]
fn free_to_buddy_takes_whole_frames_only() {
    let mut mem = Memory::new(PhysicalAddr::new(0x8020_0000), 0x20_0000).unwrap();
    let mut buddy: Spin<Buddy<10>> = Spin::new(Buddy::new());
    free_to_buddy(&mut buddy, &mut mem, 0, PhysicalAddr::new(0x8020_0800), 0x3000);
    assert_eq!(level(&buddy.data, &mem, 0), vec![0x80202, 0x80201]);
    assert_eq!(level(&buddy.data, &mem, 1), vec![]);
    assert_eq!(total(&buddy.data, &mem), 2);
}

#[test]
fn buddy_address_flips_one_bit() {
    assert_eq!(order_bytes(0), 4096);
    assert_eq!(order_bytes(3), 32768);
    assert_eq!(buddy_address(0xffff_ffc0_8020_0000, 0), 0xffff_ffc0_8020_1000);
    assert_eq!(buddy_address(0xffff_ffc0_8020_1000, 0), 0xffff_ffc0_8020_0000);
    assert_eq!(buddy_address(0xffff_ffc0_8020_2000, 1), 0xffff_ffc0_8020_0000);
    assert_eq!(buddy_address(0xffff_ffc0_8020_0000, 9), 0xffff_ffc0_8020_0000 ^ (1 << 21));
}
