use wcore::mm::memblock::MemBlock;
use wcore::mm::page::{Page, PageFrame, Pages};
use wcore::mm::PhysicalAddr;

fn table(n: usize) -> Pages {
    let mut mb: MemBlock<8, 8> = MemBlock::new();
    mb.add(PhysicalAddr::new(0x8000_0000), 0x10_0000);
    Pages::init(&mut mb, n).unwrap()
}

#[test]
fn init_carves_the_table_from_memblock() {
    let mut mb: MemBlock<8, 8> = MemBlock::new();
    mb.add(PhysicalAddr::new(0x8000_0000), 0x10_0000);
    let pages = Pages::init(&mut mb, 1000).unwrap();
    assert_eq!(pages.pages.len(), 1000);
    assert_eq!(mb.memory.region[0].size, 0x10_0000 - 0x14000);
    assert!(pages.contains(PageFrame::new(0x80000)));
    assert!(pages.contains(PageFrame::new(0x80000 + 999)));
    assert!(!pages.contains(PageFrame::new(0x80000 + 1000)));
    assert!(!pages.contains(PageFrame::new(0x7ffff)));
    assert_eq!(pages.get_frame(7), PageFrame::new(0x80007));
}

#[test]
fn init_fails_without_room() {
    let mut mb: MemBlock<8, 8> = MemBlock::new();
    mb.add(PhysicalAddr::new(0x8000_0000), 0x1000);
    assert!(Pages::init(&mut mb, 1000).is_none());
    assert_eq!(mb.memory.region[0].size, 0x1000);
    assert!(Pages::init(&mut mb, usize::MAX).is_none());
}

#[test]
fn every_frame_of_a_compound_names_its_head() {
    let mut pages = table(64);
    PageFrame::new(0x80008).set_head_page(&mut pages, 8);
    for f in 0x80008..0x80010 {
        assert_eq!(PageFrame::new(f).get_head_page(&pages), PageFrame::new(0x80008));
    }
    assert_eq!(PageFrame::new(0x80007).get_head_page(&pages), PageFrame::new(0));
    assert_eq!(PageFrame::new(0x80010).get_head_page(&pages), PageFrame::new(0));
}

#[test]
fn descriptors_can_be_replaced() {
    let mut pages = table(4);
    let mut p: Page = Page::new();
    p.inuse = 3;
    p.slub = Some(5);
    PageFrame::new(0x80002).set_page(&mut pages, p);
    let q = PageFrame::new(0x80002).get_page(&pages);
    assert_eq!((q.inuse, q.slub), (3, Some(5)));
    assert_eq!(PageFrame::new(0x80001).get_page(&pages).inuse, 0);
}
