use wcore::mm::page::PageFrame;
use wcore::mm::{page_align_up, PhysicalAddr, VirtualAddr, PAGE_OFF};

#[test]
fn page_frame_of_a_physical_address_is_the_address_shifted() {
    assert_eq!(PhysicalAddr::new(0x8020_0fff).page_frame(), PageFrame::new(0x80200));
    assert_eq!(PhysicalAddr::new(0x8020_1000).page_frame(), PageFrame::new(0x80201));
}

#[test]
fn next_page_frame_rounds_up() {
    assert_eq!(PhysicalAddr::new(0x8020_0000).next_page_frame(), PageFrame::new(0x80200));
    assert_eq!(PhysicalAddr::new(0x8020_0001).next_page_frame(), PageFrame::new(0x80201));
    assert_eq!(PhysicalAddr::new(0x8020_0fff).next_page_frame(), PageFrame::new(0x80201));
}

#[test]
fn kernel_half_conversion_adds_the_offset() {
    let va = VirtualAddr::from(PhysicalAddr::new(0x8000_0000));
    assert_eq!(va, VirtualAddr::new(0xffff_ffc0_8000_0000));
    assert_eq!(PAGE_OFF, 0xffff_ffc0_0000_0000);
}

#[test]
fn physical_virtual_round_trip() {
    for a in [0u64, 0x8000_0000, 0x8765_4321, 0x3f_ffff_ffff] {
        let pa = PhysicalAddr::new(a);
        assert_eq!(PhysicalAddr::from(VirtualAddr::from(pa)), pa);
    }
    for a in [0xffff_ffc0_0000_0000u64, 0xffff_ffc0_8020_0000, 0xffff_ffff_ffff_ffff] {
        let va = VirtualAddr::new(a);
        assert_eq!(VirtualAddr::from(PhysicalAddr::from(va)), va);
    }
}

#[test]
fn frame_to_virtual_and_back() {
    for f in [0u64, 0x80000, 0x80200, 0x3ff_ffff] {
        let frame = PageFrame::new(f);
        assert_eq!(VirtualAddr::from(frame).page_frame(), frame);
    }
    assert_eq!(VirtualAddr::from(PageFrame::new(0x80200)), VirtualAddr::new(0xffff_ffc0_8020_0000));
}

#[test]
fn virtual_page_frames() {
    let va = VirtualAddr::new(0xffff_ffc0_8000_0001);
    assert_eq!(va.virtual_page_frame(), PageFrame::new(0xf_ffff_fc08_0000));
    assert_eq!(va.virtual_page_frame_round_up(), PageFrame::new(0xf_ffff_fc08_0001));
    assert_eq!(va.page_frame(), PageFrame::new(0x80000));
    assert_eq!(va.page_frame_round_up(), PageFrame::new(0x80001));
    let aligned = VirtualAddr::new(0xffff_ffc0_8000_1000);
    assert_eq!(aligned.virtual_page_frame_round_up(), aligned.virtual_page_frame());
}

#[test]
fn offsets_and_differences() {
    let pa = PhysicalAddr::new(0x8000_0000);
    assert_eq!(pa + 0x20_0000, PhysicalAddr::new(0x8020_0000));
    assert_eq!(pa - 0x1000, PhysicalAddr::new(0x7fff_f000));
    assert_eq!(PhysicalAddr::new(0x8020_0000) - pa, 0x20_0000);
    let mut p = pa;
    p.add_assign(8);
    p.sub_assign(4);
    assert_eq!(p, PhysicalAddr::new(0x8000_0004));
    let va = VirtualAddr::new(0xffff_ffc0_8000_0000);
    assert_eq!(va + 4096, VirtualAddr::new(0xffff_ffc0_8000_1000));
    assert_eq!(va - 4096, VirtualAddr::new(0xffff_ffc0_7fff_f000));
    assert_eq!(VirtualAddr::new(0xffff_ffc0_8000_1000) - va, 4096);
    let mut v = va;
    v.add_assign(16);
    v.sub_assign(8);
    assert_eq!(v, VirtualAddr::new(0xffff_ffc0_8000_0008));
    assert_eq!(u64::from(pa), 0x8000_0000);
    assert_eq!(u64::from(va), 0xffff_ffc0_8000_0000);
}

#[test]
fn frames_order_and_step() {
    assert!(PageFrame::new(1) < PageFrame::new(2));
    assert_eq!(PageFrame::steps_between(&PageFrame::new(3), &PageFrame::new(10)), Some(7));
    assert_eq!(PageFrame::steps_between(&PageFrame::new(10), &PageFrame::new(3)), None);
    assert_eq!(PageFrame::forward_checked(PageFrame::new(3), 4), Some(PageFrame::new(7)));
    assert_eq!(PageFrame::forward_checked(PageFrame::new(u64::MAX), 1), None);
    assert_eq!(PageFrame::backward_checked(PageFrame::new(3), 3), Some(PageFrame::new(0)));
    assert_eq!(PageFrame::backward_checked(PageFrame::new(3), 4), None);
    assert_eq!(PageFrame::new(5).get_ppn(), 5);
}

#[test]
fn page_align_up_values() {
    assert_eq!(page_align_up(0), 0);
    assert_eq!(page_align_up(1), 4096);
    assert_eq!(page_align_up(4096), 4096);
    assert_eq!(page_align_up(4097), 8192);
}
