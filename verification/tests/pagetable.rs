use wcore::mm::buddy::buddy::Buddy;
use wcore::mm::mapping::pagetable::{MapError, PageTable};
use wcore::mm::mapping::pte::{Flags, PTE};
use wcore::mm::memory::Memory;
use wcore::mm::page::PageFrame;
use wcore::mm::{PhysicalAddr, VirtualAddr};
use wcore::sync::Spin;

fn setup(frames: u64) -> (Spin<Buddy<10>>, Memory) {
    let mut mem = Memory::new(PhysicalAddr::new(0x8020_0000), 0x20_0000).unwrap();
    let mut buddy: Buddy<10> = Buddy::new();
    buddy.add_free_memory(&mut mem, PageFrame::new(0x80200), PageFrame::new(0x80200 + frames));
    (Spin::new(buddy), mem)
}

fn entry(mem: &Memory, table: u64, idx: u64) -> PTE {
    PTE(mem.read(VirtualAddr::new((table << 12) + 0xffff_ffc0_0000_0000 + 8 * idx)))
}

#[test]
fn map_four_pages_of_the_kernel() {
    let (mut buddy, mut mem) = setup(512);
    let mut pt = PageTable::new();
    let r = pt.try_map(
        &mut mem,
        &mut buddy,
        0,
        PhysicalAddr::new(0x8000_0000),
        VirtualAddr::new(0xffff_ffc0_8000_0000),
        4 * 4096,
        Flags(Flags::READABLE | Flags::EXECUTABLE),
    );
    assert_eq!(r, Ok(()));
    for i in 0..512 {
        assert_eq!(pt.entries[i].is_valid(), i == 258);
    }
    let l2 = pt.entries[258];
    assert!(l2.is_dir());
    let t1 = l2.get_page_frame().unwrap().0;
    assert_eq!(t1, 0x80200);
    let l1 = entry(&mem, t1, 0);
    assert!(l1.is_dir());
    for i in 1..512 {
        assert!(!entry(&mem, t1, i).is_valid());
    }
    let t0 = l1.get_page_frame().unwrap().0;
    assert_eq!(t0, 0x80201);
    for i in 0..4 {
        let e = entry(&mem, t0, i);
        assert!(e.is_leaf());
        assert_eq!(e.get_flags(), Flags(0b1011));
        assert_eq!(e.get_page_frame(), Some(PageFrame::new(0x80000 + i)));
    }
    for i in 4..512 {
        assert!(!entry(&mem, t0, i).is_valid());
    }
    assert_eq!(buddy.data.alloc_pages(&mut mem, 0), Some(PageFrame::new(0x80202)));
}

#[test]
fn map_rounds_the_end_up_to_a_page() {
    let (mut buddy, mut mem) = setup(512);
    let mut pt = PageTable::new();
    let r = pt.try_map(
        &mut mem,
        &mut buddy,
        0,
        PhysicalAddr::new(0x8000_0000),
        VirtualAddr::new(0xffff_ffc0_8000_0000),
        4096 + 1,
        Flags(Flags::READABLE),
    );
    assert_eq!(r, Ok(()));
    let t1 = pt.entries[258].get_page_frame().unwrap().0;
    let t0 = entry(&mem, t1, 0).get_page_frame().unwrap().0;
    assert!(entry(&mem, t0, 0).is_valid());
    assert!(entry(&mem, t0, 1).is_valid());
    assert!(!entry(&mem, t0, 2).is_valid());
}

#[test]
fn mapping_a_mapped_page_again_is_refused() {
    let (mut buddy, mut mem) = setup(512);
    let mut pt = PageTable::new();
    let va = VirtualAddr::new(0xffff_ffc0_8000_2000);
    assert_eq!(
        pt.try_map(&mut mem, &mut buddy, 0, PhysicalAddr::new(0x8000_2000), va, 4096, Flags(Flags::READABLE)),
        Ok(())
    );
    let r = pt.try_map(
        &mut mem,
        &mut buddy,
        0,
        PhysicalAddr::new(0x9000_0000),
        VirtualAddr::new(0xffff_ffc0_8000_0000),
        4 * 4096,
        Flags(Flags::READABLE | Flags::WRITABLE),
    );
    assert_eq!(r, Err(MapError::Remap(PageFrame::new(0xf_ffff_fc08_0002))));
    let t1 = pt.entries[258].get_page_frame().unwrap().0;
    let t0 = entry(&mem, t1, 0).get_page_frame().unwrap().0;
    assert_eq!(entry(&mem, t0, 0).get_page_frame(), Some(PageFrame::new(0x90000)));
    assert_eq!(entry(&mem, t0, 1).get_page_frame(), Some(PageFrame::new(0x90001)));
    assert_eq!(entry(&mem, t0, 2).get_page_frame(), Some(PageFrame::new(0x80002)));
    assert_eq!(entry(&mem, t0, 2).get_flags(), Flags(0b0011));
    assert!(!entry(&mem, t0, 3).is_valid());
}

#[test]
fn map_gives_up_when_there_is_no_frame_for_a_table() {
    let (mut buddy, mut mem) = setup(1);
    let mut pt = PageTable::new();
    let r = pt.try_map(
        &mut mem,
        &mut buddy,
        0,
        PhysicalAddr::new(0x8000_0000),
        VirtualAddr::new(0xffff_ffc0_8000_0000),
        4096,
        Flags(Flags::READABLE),
    );
    assert_eq!(r, Err(MapError::NoMemory(PageFrame::new(0xf_ffff_fc08_0000))));
    assert!(pt.entries[258].is_dir());
    assert_eq!(buddy.data.alloc_pages(&mut mem, 0), None);
}

#[test]
fn walk_alloc_allocates_only_what_is_missing() {
    let (mut buddy, mut mem) = setup(512);
    let mut pt = PageTable::new();
    let a = pt.walk_alloc(&mut mem, &mut buddy, 0, PageFrame::new(0x40201)).unwrap();
    let b = pt.walk_alloc(&mut mem, &mut buddy, 0, PageFrame::new(0x40202)).unwrap();
    assert_eq!(a, VirtualAddr::new(0xffff_ffc0_8020_1008));
    assert_eq!(b, VirtualAddr::new(0xffff_ffc0_8020_1010));
    let c = pt.walk_alloc(&mut mem, &mut buddy, 0, PageFrame::new(0x40201 + 512)).unwrap();
    assert_eq!(c, VirtualAddr::new(0xffff_ffc0_8020_2008));
    assert_eq!(buddy.data.alloc_pages(&mut mem, 0), Some(PageFrame::new(0x80203)));
}

#[test]
fn satp_word_for_a_root() {
    let pt = PageTable::new_zeroed();
    assert_eq!(pt.as_sv39(VirtualAddr::new(0xffff_ffc0_8040_0000)), 0x8000_0000_0008_0400);
    assert_eq!(
        pt.as_phys_addr(VirtualAddr::new(0xffff_ffc0_8040_0000)),
        PhysicalAddr::new(0x8040_0000)
    );
}

#[test]
fn map_kernel_maps_the_five_segments() {
    let (mut buddy, mut mem) = setup(512);
    let mut pt = PageTable::new();
    let k = 0xffff_ffc0_8000_0000u64;
    let r = pt.try_map_kernel(
        &mut mem,
        &mut buddy,
        0,
        VirtualAddr::new(k),
        VirtualAddr::new(k + 0x2000),
        VirtualAddr::new(k + 0x3000),
        VirtualAddr::new(k + 0x5000),
        VirtualAddr::new(k + 0x6000),
        PhysicalAddr::new(0x8000_8000),
    );
    assert_eq!(r, Ok(()));
    let t1 = pt.entries[258].get_page_frame().unwrap().0;
    let t0 = entry(&mem, t1, 0).get_page_frame().unwrap().0;
    let want: [u8; 8] = [0b1011, 0b1011, 0b0011, 0b0111, 0b0111, 0b0111, 0b0111, 0b0111];
    for i in 0..8u64 {
        let e = entry(&mem, t0, i);
        assert_eq!(e.get_flags(), Flags(want[i as usize]));
        assert_eq!(e.get_page_frame(), Some(PageFrame::new(0x80000 + i)));
    }
    assert!(!entry(&mem, t0, 8).is_valid());
}

#[test]
fn map_kernel_gives_up_where_two_segments_share_a_page() {
    let (mut buddy, mut mem) = setup(512);
    let mut pt = PageTable::new();
    let k = 0xffff_ffc0_8000_0000u64;
    let r = pt.try_map_kernel(
        &mut mem,
        &mut buddy,
        0,
        VirtualAddr::new(k),
        VirtualAddr::new(k + 0x1800),
        VirtualAddr::new(k + 0x3000),
        VirtualAddr::new(k + 0x5000),
        VirtualAddr::new(k + 0x6000),
        PhysicalAddr::new(0x8000_8000),
    );
    assert_eq!(r, Err(MapError::Remap(PageFrame::new(0xf_ffff_fc08_0001))));
    let t1 = pt.entries[258].get_page_frame().unwrap().0;
    let t0 = entry(&mem, t1, 0).get_page_frame().unwrap().0;
    assert_eq!(entry(&mem, t0, 1).get_flags(), Flags(0b1011));
    assert!(!entry(&mem, t0, 2).is_valid());
}

#[test]
fn map_with_two_free_frames() {
    let (mut buddy, mut mem) = setup(2);
    let mut pt = PageTable::new();
    pt.map(
        &mut mem,
        &mut buddy,
        0,
        PhysicalAddr::new(0x8000_0000),
        VirtualAddr::new(0xffff_ffc0_8000_0000),
        4 * 4096,
        Flags(Flags::READABLE | Flags::EXECUTABLE),
    );
    let t1 = pt.entries[258].get_page_frame().unwrap().0;
    let t0 = entry(&mem, t1, 0).get_page_frame().unwrap().0;
    assert_eq!((t1, t0), (0x80200, 0x80201));
    for i in 0..4 {
        assert_eq!(entry(&mem, t0, i).get_page_frame(), Some(PageFrame::new(0x80000 + i)));
        assert_eq!(entry(&mem, t0, i).get_flags(), Flags(0b1011));
    }
    assert!(!entry(&mem, t0, 4).is_valid());
    assert!(!buddy.data.has_run(&mem, 0));
    pt.map(
        &mut mem,
        &mut buddy,
        0,
        PhysicalAddr::new(0x8000_4000),
        VirtualAddr::new(0xffff_ffc0_8000_4000),
        4096,
        Flags(Flags::READABLE),
    );
    assert_eq!(entry(&mem, t0, 4).get_page_frame(), Some(PageFrame::new(0x80004)));
}

#[test]
fn map_takes_a_frame_for_each_missing_table() {
    let (mut buddy, mut mem) = setup(3);
    let mut pt = PageTable::new();
    let r = pt.try_map(
        &mut mem,
        &mut buddy,
        0,
        PhysicalAddr::new(0x801f_f000),
        VirtualAddr::new(0xffff_ffc0_801f_f000),
        2 * 4096,
        Flags(Flags::READABLE),
    );
    assert_eq!(r, Ok(()));
    assert!(!buddy.data.has_run(&mem, 0));
    let t1 = pt.entries[258].get_page_frame().unwrap().0;
    assert!(entry(&mem, t1, 0).is_dir() && entry(&mem, t1, 1).is_dir());
    assert!(!entry(&mem, t1, 2).is_valid());
}

#[test]
fn map_kernel_on_a_new_table() {
    let (mut buddy, mut mem) = setup(2);
    let mut pt = PageTable::new();
    let k = 0xffff_ffc0_8000_0000u64;
    pt.map_kernel(
        &mut mem,
        &mut buddy,
        0,
        VirtualAddr::new(k + 0x800),
        VirtualAddr::new(k + 0x2000),
        VirtualAddr::new(k + 0x3000),
        VirtualAddr::new(k + 0x5000),
        VirtualAddr::new(k + 0x6000),
        PhysicalAddr::new(0x8000_7001),
    );
    let t1 = pt.entries[258].get_page_frame().unwrap().0;
    let t0 = entry(&mem, t1, 0).get_page_frame().unwrap().0;
    let want: [u8; 8] = [0b1011, 0b1011, 0b0011, 0b0111, 0b0111, 0b0111, 0b0111, 0b0111];
    for i in 0..8u64 {
        assert_eq!(entry(&mem, t0, i).get_flags(), Flags(want[i as usize]));
        assert_eq!(entry(&mem, t0, i).get_page_frame(), Some(PageFrame::new(0x80000 + i)));
    }
    assert!(!entry(&mem, t0, 8).is_valid());
    assert!(!buddy.data.has_run(&mem, 0));
}
