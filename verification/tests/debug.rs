use wcore::mm::buddy::buddy::Buddy;
use wcore::mm::mapping::debug::{format_dir, read_table, write_entry_line, write_flags_bit};
use wcore::mm::mapping::pagetable::PageTable;
use wcore::mm::mapping::pte::{Flags, PTE};
use wcore::mm::memory::Memory;
use wcore::mm::page::PageFrame;
use wcore::mm::{PhysicalAddr, VirtualAddr};
use wcore::sync::Spin;

fn setup() -> (Spin<Buddy<10>>, Memory) {
    let mut mem = Memory::new(PhysicalAddr::new(0x8020_0000), 0x20_0000).unwrap();
    let mut buddy: Buddy<10> = Buddy::new();
    buddy.add_free_memory(&mut mem, PageFrame::new(0x80200), PageFrame::new(0x80400));
    (Spin::new(buddy), mem)
}

#[test]
fn entry_text() {
    let e = PTE::new(Some(PageFrame::new(0x80000)), Flags(Flags::READABLE | Flags::EXECUTABLE));
    assert_eq!(e.fmt(), "0x80000000 ....E.RV");
    let e = PTE::new(Some(PageFrame::new(0x1)), Flags(0xff));
    assert_eq!(e.fmt(), "0x1000 DAGUEWRV");
    assert_eq!(PTE(0).fmt(), "0x0 ........");
}

#[test]
fn address_text() {
    assert_eq!(PhysicalAddr::new(0x8000_0000).fmt(), "PA(0x80000000)");
    assert_eq!(VirtualAddr::new(0xffff_ffc0_8000_0000).fmt(), "VA(0xffffffc080000000)");
    assert_eq!(PhysicalAddr::new(0).fmt(), "PA(0x0)");
}

#[test]
fn flag_letter_or_dot() {
    let mut s = String::new();
    write_flags_bit(&mut s, Flags(0b110), Flags(Flags::WRITABLE), 'W');
    write_flags_bit(&mut s, Flags(0b110), Flags(Flags::VALID), 'V');
    assert_eq!(s, "W.");
}

#[test]
fn line_of_an_entry() {
    let e = PTE::new(Some(PageFrame::new(0x80000)), Flags(Flags::READABLE));
    let mut s = String::from("x");
    let cur = write_entry_line(&mut s, e, 258, 2, 0);
    assert_eq!(cur, 0xffff_ffc0_8000_0000);
    assert_eq!(s, "x\n258 0xffffffc080000000~0xffffffc0bfffffff - 0x80000000 ......RV 1G");
    let mut s = String::new();
    let cur = write_entry_line(&mut s, e, 3, 1, 0xffff_ffc0_8000_0000);
    assert_eq!(cur, 0xffff_ffc0_8060_0000);
    assert_eq!(s, "\n  003 0xffffffc080600000~0xffffffc0807fffff - 0x80000000 ......RV 2M");
    let mut s = String::new();
    write_entry_line(&mut s, e, 7, 0, 0x4000_0000);
    assert_eq!(s, "\n    007 0x0000000040007000~0x0000000040007fff - 0x80000000 ......RV ");
}

#[test]
fn text_of_a_table_tree() {
    let (mut buddy, mut mem) = setup();
    let mut pt = PageTable::new();
    pt.try_map(
        &mut mem,
        &mut buddy,
        0,
        PhysicalAddr::new(0x8000_0000),
        VirtualAddr::new(0xffff_ffc0_8000_0000),
        2 * 4096,
        Flags(Flags::READABLE | Flags::EXECUTABLE),
    )
    .unwrap();
    let at = VirtualAddr::new(0xffff_ffc0_8040_0000);
    assert_eq!(pt.fmt(&mem, at, false), "PageTable(0x80400000)");
    let want = "PageTable(0x80400000):\
\n258 0xffffffc080000000~0xffffffc0bfffffff - 0x80200000 .......V \
\n  000 0xffffffc080000000~0xffffffc0801fffff - 0x80201000 .......V \
\n    000 0xffffffc080000000~0xffffffc080000fff - 0x80000000 ....E.RV \
\n    001 0xffffffc080001000~0xffffffc080001fff - 0x80001000 ....E.RV ";
    assert_eq!(pt.fmt(&mem, at, true), want);
}

#[test]
fn a_table_outside_memory_is_not_followed() {
    let (_, mem) = setup();
    let mut root = vec![PTE(0); 512];
    root[1] = PTE::new(Some(PageFrame::new(0x90000)), Flags(Flags::VALID));
    let mut s = String::new();
    format_dir(&mut s, &mem, &root, 2, 0);
    assert_eq!(s, "\n001 0x0000000040000000~0x000000007fffffff - 0x90000000 .......V ");
    assert_eq!(read_table(&mem, 0x80200).len(), 512);
}

#[test]
fn free_dir_gives_the_tables_back() {
    let (mut buddy, mut mem) = setup();
    let mut pt = PageTable::new();
    pt.try_map(
        &mut mem,
        &mut buddy,
        0,
        PhysicalAddr::new(0x8000_0000),
        VirtualAddr::new(0xffff_ffc0_8000_0000),
        513 * 4096,
        Flags(Flags::READABLE),
    )
    .unwrap();
    assert_eq!(buddy.data.alloc_pages(&mut mem, 0), Some(PageFrame::new(0x80203)));
    buddy.data.free_pages(&mut mem, PageFrame::new(0x80203), 0);
    pt.free_dir(&mut mem, &mut buddy, 0);
    for i in 0..512 {
        assert_eq!(pt.entries[i].0, 0);
    }
    assert_eq!(buddy.data.alloc_pages(&mut mem, 9), Some(PageFrame::new(0x80200)));
}
