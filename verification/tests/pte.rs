use wcore::mm::mapping::pte::{Flags, PTE};
use wcore::mm::page::PageFrame;
use wcore::mm::VirtualAddr;

#[test]
fn new_entry_has_flags_valid_bit_and_page_number() {
    let e = PTE::new(Some(PageFrame::new(0x80000)), Flags(Flags::READABLE | Flags::EXECUTABLE));
    assert_eq!(e.0, (0x80000 << 10) | 0b1011);
    assert!(e.is_valid());
    assert!(e.is_leaf());
    assert!(!e.is_dir());
    assert_eq!(e.get_page_frame(), Some(PageFrame::new(0x80000)));
    assert_eq!(e.get_flags(), Flags(0b1011));
}

#[test]
fn entry_without_frame_is_not_valid() {
    let e = PTE::new(None, Flags(Flags::VALID | Flags::WRITABLE));
    assert_eq!(e.0, 0b100);
    assert!(!e.is_valid());
    assert!(!e.is_leaf());
    assert!(!e.is_dir());
    assert_eq!(e.get_page_frame(), None);
    assert_eq!(e.next_level(), None);
}

#[test]
fn valid_entry_without_rwx_points_to_a_table() {
    let e = PTE::new(Some(PageFrame::new(0x80400)), Flags(Flags::VALID));
    assert!(e.is_dir());
    assert!(!e.is_leaf());
    assert_eq!(e.next_level(), Some(VirtualAddr::new(0xffff_ffc0_8040_0000)));
    let g = PTE::new(Some(PageFrame::new(1)), Flags(Flags::GLOBAL | Flags::USER));
    assert!(g.is_dir());
}

#[test]
fn largest_page_number_fits() {
    let e = PTE::new(Some(PageFrame::new(0xfff_ffff_ffff)), Flags(Flags::READABLE));
    assert_eq!(e.get_page_frame_unchecked(), PageFrame::new(0xfff_ffff_ffff));
    assert_eq!(e.0 >> 54, 0);
}

#[test]
fn update_page_number_keeps_the_other_bits() {
    let mut e = PTE((0x3ffu64 << 54) | (0x123 << 10) | (0b11 << 8) | 0b1100_0110);
    e.update_page_number(Some(PageFrame::new(0x456)));
    assert_eq!(e.0, (0x3ffu64 << 54) | (0x456 << 10) | (0b11 << 8) | 0b1100_0111);
    e.update_page_number(None);
    assert_eq!(e.0, (0x3ffu64 << 54) | (0b11 << 8) | 0b1100_0110);
    assert!(!e.is_valid());
}

#[test]
fn flags_operations() {
    let mut f = Flags::empty();
    assert_eq!(f.bits(), 0);
    f.set(Flags(Flags::READABLE | Flags::DIRTY), true);
    assert_eq!(f, Flags(0x82));
    assert!(f.contains(Flags(Flags::READABLE)));
    assert!(!f.contains(Flags(Flags::READABLE | Flags::WRITABLE)));
    assert!(f.intersects(Flags(Flags::READABLE | Flags::WRITABLE)));
    assert!(!f.intersects(Flags(Flags::WRITABLE)));
    f.set(Flags(Flags::DIRTY), false);
    assert_eq!(f, Flags(2));
    assert_eq!(Flags(2) | Flags(4), Flags(6));
    assert_eq!(Flags(7) - Flags(2), Flags(5));
    assert_eq!(Flags::from_bits(0xff).bits(), 0xff);
    assert_eq!(
        [Flags::VALID, Flags::READABLE, Flags::WRITABLE, Flags::EXECUTABLE, Flags::USER,
         Flags::GLOBAL, Flags::ACCESSED, Flags::DIRTY],
        [1, 2, 4, 8, 16, 32, 64, 128]
    );
}

#[test]
fn page_numbers_of_a_virtual_page() {
    let vpn = PageFrame::new(0xffff_ffc0_8000_3000 >> 12);
    assert_eq!(vpn.page_numbers(), [3, 0, 258]);
    assert_eq!(vpn.page_number(0), 3);
    assert_eq!(vpn.page_number(1), 0);
    assert_eq!(vpn.page_number(2), 258);
    let v = PageFrame::new((5 << 18) | (6 << 9) | 7);
    assert_eq!(v.page_numbers(), [7, 6, 5]);
}
