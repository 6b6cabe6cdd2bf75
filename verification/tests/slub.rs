use wcore::mm::allocator::heap::{cache_index, large_ord, slub_info, Slub};
use wcore::mm::allocator::slub::{min, MemCache, MemCacheCpu};
use wcore::mm::allocator::DoubleLinkedList;
use wcore::mm::buddy::buddy::Buddy;
use wcore::mm::memblock::MemBlock;
use wcore::mm::memory::Memory;
use wcore::mm::page::{PageFrame, Pages};
use wcore::mm::PhysicalAddr;
use wcore::sync::Spin;

const K: u64 = 0xffff_ffc0_0000_0000;

fn setup() -> (Pages, Spin<Buddy<10>>, Memory) {
    let mut mem = Memory::new(PhysicalAddr::new(0x8020_0000), 0x20_0000).unwrap();
    let mut buddy: Buddy<10> = Buddy::new();
    buddy.add_free_memory(&mut mem, PageFrame::new(0x80200), PageFrame::new(0x80400));
    let mut mb: MemBlock<8, 8> = MemBlock::new();
    mb.add(PhysicalAddr::new(0x8000_0000), 0x20_0000);
    let pages = Pages::init(&mut mb, 0x400).unwrap();
    (pages, Spin::new(buddy), mem)
}

fn partial(c: &MemCache, pages: &Pages) -> Vec<u64> {
    let mut v = Vec::new();
    let mut f = c.node.data.partial.next;
    while f != 0 {
        v.push(f);
        f = PageFrame::new(f).get_page(pages).list_node.data.next;
    }
    v
}

#[test]
fn cache_sizes() {
    let want: [(u64, u16, u16); 13] = [
        (8, 0, 512), (16, 0, 256), (32, 0, 128), (64, 0, 64), (96, 0, 42), (128, 0, 32),
        (192, 0, 21), (256, 0, 16), (512, 1, 16), (1024, 2, 16), (2048, 3, 16), (4096, 3, 8),
        (8192, 3, 4),
    ];
    for (size, ord, nobjs) in want {
        let c = MemCache::new(size, 8);
        assert_eq!((c.size, c.ord, c.nobjs, c.min_partial), (size, ord, nobjs, 8));
    }
    let c = MemCache::new(13, 8);
    assert_eq!(c.size, 16);
    assert_eq!(min(3, 5), 3);
    assert_eq!(min(5, 3), 3);
}

#[test]
fn first_allocations_come_from_one_slab_in_ascending_order() {
    let (mut pages, mut buddy, mut mem) = setup();
    let mut c = MemCache::new(16, 8);
    for i in 0..256u64 {
        let p = c.allocate(0, &mut pages, &mut buddy, &mut mem);
        assert_eq!(p, K + 0x8020_0000 + 16 * i);
    }
    assert_eq!(c.cpu_slub.data[0].page, Some(PageFrame::new(0x80200)));
    assert!(c.cpu_slub.data[0].freelist.empty());
    let d = PageFrame::new(0x80200).get_page(&pages);
    assert_eq!((d.head_page, d.slub, d.inuse, d.slub_data.objs()), (0x80200, Some(0), 256, 256));
    let p = c.allocate(0, &mut pages, &mut buddy, &mut mem);
    assert_eq!(p, K + 0x8020_1000);
    assert_eq!(c.cpu_slub.data[0].page, Some(PageFrame::new(0x80201)));
}

#[test]
fn frees_on_the_same_hart_take_the_fast_path() {
    let (mut pages, mut buddy, mut mem) = setup();
    let mut c = MemCache::new(16, 8);
    let mut v = Vec::new();
    for _ in 0..256 {
        v.push(c.allocate(0, &mut pages, &mut buddy, &mut mem));
    }
    for p in v.iter() {
        c.dealloc(0, &mut pages, &mut buddy, &mut mem, *p, PageFrame::new(0x80200));
    }
    let d = PageFrame::new(0x80200).get_page(&pages);
    assert_eq!(d.inuse, 256);
    assert!(d.freelist.data.empty());
    assert_eq!(c.node.data.nr_partial, 0);
    assert_eq!(c.cpu_slub.data[0].freelist.head, *v.last().unwrap());
}

#[test]
fn alloc_free_alloc_returns_the_same_address() {
    let (mut pages, mut buddy, mut mem) = setup();
    let mut c = MemCache::new(64, 8);
    let a = c.allocate(0, &mut pages, &mut buddy, &mut mem);
    let _b = c.allocate(0, &mut pages, &mut buddy, &mut mem);
    c.dealloc(0, &mut pages, &mut buddy, &mut mem, a, PageFrame::new(0x80200));
    assert_eq!(c.allocate(0, &mut pages, &mut buddy, &mut mem), a);
}

#[test]
fn free_on_another_hart_goes_to_the_page_and_the_partial_list() {
    let (mut pages, mut buddy, mut mem) = setup();
    let mut c = MemCache::new(16, 8);
    let p = c.allocate(0, &mut pages, &mut buddy, &mut mem);
    let q = c.allocate(0, &mut pages, &mut buddy, &mut mem);
    c.dealloc(1, &mut pages, &mut buddy, &mut mem, p, PageFrame::new(0x80200));
    let d = *PageFrame::new(0x80200).get_page(&pages);
    assert_eq!(d.inuse, 255);
    assert_eq!(d.freelist.data.head, p);
    assert_eq!(c.node.data.nr_partial, 1);
    assert_eq!(partial(&c, &pages), vec![0x80200]);
    assert!(c.cpu_slub.data[1].freelist.empty());
    c.dealloc(1, &mut pages, &mut buddy, &mut mem, q, PageFrame::new(0x80200));
    let d = *PageFrame::new(0x80200).get_page(&pages);
    assert_eq!(d.inuse, 254);
    assert_eq!(d.freelist.data.head, q);
    assert_eq!(c.node.data.nr_partial, 1);
    let r = c.allocate(1, &mut pages, &mut buddy, &mut mem);
    assert_eq!(r, q);
    assert_eq!(c.node.data.nr_partial, 0);
    assert_eq!(partial(&c, &pages), vec![]);
    assert_eq!(c.cpu_slub.data[1].page, Some(PageFrame::new(0x80200)));
    assert_eq!(c.cpu_slub.data[1].freelist.head, p);
    let d = *PageFrame::new(0x80200).get_page(&pages);
    assert_eq!(d.inuse, 256);
    assert!(d.freelist.data.empty());
}

#[test]
fn a_page_without_objects_in_use_goes_back_when_enough_are_partial() {
    let (mut pages, mut buddy, mut mem) = setup();
    let mut c = MemCache::new(8192, 8);
    c.min_partial = 0;
    let mut v = Vec::new();
    for _ in 0..8 {
        v.push(c.allocate(0, &mut pages, &mut buddy, &mut mem));
    }
    assert_eq!(v[0], K + 0x8020_0000);
    assert_eq!(v[4], K + 0x8020_8000);
    for p in &v[0..3] {
        c.dealloc(1, &mut pages, &mut buddy, &mut mem, *p, PageFrame::new(0x80200));
    }
    assert_eq!(c.node.data.nr_partial, 1);
    assert_eq!(PageFrame::new(0x80200).get_page(&pages).inuse, 1);
    let before = buddy.data.free_list[3].head;
    c.dealloc(1, &mut pages, &mut buddy, &mut mem, v[3], PageFrame::new(0x80200));
    assert_eq!(c.node.data.nr_partial, 0);
    assert_eq!(partial(&c, &pages), vec![]);
    assert_ne!(buddy.data.free_list[3].head, before);
    assert_eq!(buddy.data.alloc_pages(&mut mem, 3), Some(PageFrame::new(0x80200)));
}

#[test]
fn a_page_without_objects_in_use_stays_when_few_are_partial() {
    let (mut pages, mut buddy, mut mem) = setup();
    let mut c = MemCache::new(8192, 8);
    let mut v = Vec::new();
    for _ in 0..4 {
        v.push(c.allocate(0, &mut pages, &mut buddy, &mut mem));
    }
    for p in &v {
        c.dealloc(1, &mut pages, &mut buddy, &mut mem, *p, PageFrame::new(0x80200));
    }
    assert_eq!(c.node.data.nr_partial, 1);
    assert_eq!(PageFrame::new(0x80200).get_page(&pages).inuse, 0);
    assert_eq!(c.allocate(1, &mut pages, &mut buddy, &mut mem), v[3]);
}

fn all_free(c: &MemCache, pages: &Pages, buddy: &Spin<Buddy<10>>) -> bool {
    let free = |locked: bool, owner: isize| !locked && owner == -1;
    free(c.node.locked, c.node.owner)
        && free(buddy.locked, buddy.owner)
        && pages.pages.iter().all(|d| {
            free(d.list_node.locked, d.list_node.owner) && free(d.freelist.locked, d.freelist.owner)
        })
}

#[test]
fn every_lock_is_given_back() {
    let (mut pages, mut buddy, mut mem) = setup();
    let mut c = MemCache::new(8192, 8);
    c.min_partial = 0;
    assert!(all_free(&c, &pages, &buddy));
    let mut v = Vec::new();
    for _ in 0..8 {
        v.push(c.allocate(0, &mut pages, &mut buddy, &mut mem));
        assert!(all_free(&c, &pages, &buddy));
    }
    for p in &v[0..4] {
        c.dealloc(1, &mut pages, &mut buddy, &mut mem, *p, PageFrame::new(0x80200));
        assert!(all_free(&c, &pages, &buddy));
    }
    for p in &v[4..6] {
        c.dealloc(1, &mut pages, &mut buddy, &mut mem, *p, PageFrame::new(0x80208));
        assert!(all_free(&c, &pages, &buddy));
    }
    assert_eq!(c.allocate(1, &mut pages, &mut buddy, &mut mem), v[5]);
    assert!(all_free(&c, &pages, &buddy));
    let mut none: Spin<Buddy<10>> = Spin::new(Buddy::new());
    let mut d = MemCache::new(64, 8);
    assert_eq!(d.allocate(2, &mut pages, &mut none, &mut mem), 0);
    assert!(all_free(&d, &pages, &none));
}

#[test]
fn allocation_fails_without_memory() {
    let (mut pages, _, mut mem) = setup();
    let mut buddy: Spin<Buddy<10>> = Spin::new(Buddy::new());
    let mut c = MemCache::new(16, 8);
    assert_eq!(c.allocate(0, &mut pages, &mut buddy, &mut mem), 0);
}

#[test]
fn cpu_fast_paths() {
    let mut mem = Memory::new(PhysicalAddr::new(0x8000_0000), 4096).unwrap();
    let mut cpu = MemCacheCpu::new();
    assert_eq!(cpu.try_alloc(&mem), 0);
    assert!(!cpu.try_dealloc(&mut mem, K + 0x8000_0000, PageFrame::new(0x80000)));
    cpu.page = Some(PageFrame::new(0x80000));
    assert!(!cpu.try_dealloc(&mut mem, K + 0x8000_0000, PageFrame::new(0x80001)));
    assert!(cpu.try_dealloc(&mut mem, K + 0x8000_0000, PageFrame::new(0x80000)));
    assert!(cpu.try_dealloc(&mut mem, K + 0x8000_0010, PageFrame::new(0x80000)));
    assert_eq!(cpu.try_alloc(&mem), K + 0x8000_0010);
    assert_eq!(cpu.try_alloc(&mem), K + 0x8000_0000);
    assert_eq!(cpu.try_alloc(&mem), 0);
}

#[test]
fn hook_list() {
    let (mut pages, _, _) = setup();
    let mut head = DoubleLinkedList::new();
    assert_eq!(head.remove_next(&mut pages), None);
    head.insert(&mut pages, PageFrame::new(0x80001));
    head.insert(&mut pages, PageFrame::new(0x80002));
    head.insert(&mut pages, PageFrame::new(0x80003));
    head.remove(&mut pages, PageFrame::new(0x80002));
    assert_eq!(head.remove_next(&mut pages), Some(PageFrame::new(0x80003)));
    assert_eq!(head.remove_next(&mut pages), Some(PageFrame::new(0x80001)));
    assert_eq!(head.remove_next(&mut pages), None);
    let mut n = DoubleLinkedList { next: 5, prev: 6 };
    n.reset();
    assert_eq!(n, DoubleLinkedList::new());
}

#[test]
fn a_new_heap_has_thirteen_empty_caches() {
    let heap = Slub::new();
    let want: [(u64, u16, u16); 13] = [
        (8, 0, 512),
        (16, 0, 256),
        (32, 0, 128),
        (64, 0, 64),
        (96, 0, 42),
        (128, 0, 32),
        (192, 0, 21),
        (256, 0, 16),
        (512, 1, 16),
        (1024, 2, 16),
        (2048, 3, 16),
        (4096, 3, 8),
        (8192, 3, 4),
    ];
    assert_eq!(heap.caches.len(), 13);
    for (i, c) in heap.caches.iter().enumerate() {
        assert_eq!((c.size, c.ord, c.nobjs), want[i]);
        assert_eq!((c.id, c.min_partial, c.node.data.nr_partial), (i, 8, 0));
        assert_eq!(c.node.data.partial, DoubleLinkedList::new());
        for cpu in c.cpu_slub.data.iter() {
            assert!(cpu.page.is_none() && cpu.freelist.empty());
        }
    }
}

#[test]
fn heap_picks_the_cache_of_the_next_size() {
    assert_eq!(cache_index(1), 0);
    assert_eq!(cache_index(8), 0);
    assert_eq!(cache_index(9), 1);
    assert_eq!(cache_index(65), 4);
    assert_eq!(cache_index(8192), 12);
    assert_eq!(cache_index(8193), 13);
    assert_eq!(slub_info(4), 96);
    assert_eq!(large_ord(8193), 2);
    assert_eq!(large_ord(16384), 2);
    assert_eq!(large_ord(16385), 3);
    assert_eq!(large_ord(u64::MAX), 52);
    let (mut pages, mut buddy, mut mem) = setup();
    let mut heap = Slub::new();
    let a = heap._alloc(20, 0, &mut pages, &mut buddy, &mut mem);
    let b = heap._alloc(32, 0, &mut pages, &mut buddy, &mut mem);
    let c = heap._alloc(8, 0, &mut pages, &mut buddy, &mut mem);
    assert_eq!(a, K + 0x8020_0000);
    assert_eq!(b, K + 0x8020_0020);
    assert_eq!(c, K + 0x8020_1000);
    assert_eq!(PageFrame::new(0x80200).get_page(&pages).slub, Some(2));
    assert_eq!(PageFrame::new(0x80201).get_page(&pages).slub, Some(0));
    heap._dealloc(a, 0, &mut pages, &mut buddy, &mut mem);
    assert_eq!(heap._alloc(24, 0, &mut pages, &mut buddy, &mut mem), a);
}

#[test]
fn heap_serves_large_requests_from_the_buddy() {
    let (mut pages, mut buddy, mut mem) = setup();
    let mut heap = Slub::new();
    let a = heap._alloc(3 * 4096 + 1, 0, &mut pages, &mut buddy, &mut mem);
    assert_eq!(a, K + 0x8020_0000);
    for f in 0x80200..0x80204 {
        assert_eq!(PageFrame::new(f).get_head_page(&pages), PageFrame::new(0x80200));
    }
    let d = PageFrame::new(0x80200).get_page(&pages);
    assert_eq!((d.slub, d.slub_data.ord()), (None, 2));
    assert_eq!(buddy.data.alloc_pages(&mut mem, 2), Some(PageFrame::new(0x80204)));
    heap._dealloc(a, 0, &mut pages, &mut buddy, &mut mem);
    assert_eq!(buddy.data.alloc_pages(&mut mem, 2), Some(PageFrame::new(0x80200)));
    assert_eq!(heap._alloc(0x40_0000, 0, &mut pages, &mut buddy, &mut mem), 0);
}

#[test]
fn heap_rounds_the_size_up_to_the_alignment() {
    let (mut pages, mut buddy, mut mem) = setup();
    let mut heap = Slub::new();
    let a = heap.allocate(20, 16, 0, &mut pages, &mut buddy, &mut mem);
    assert_eq!(PageFrame::new(0x80200).get_page(&pages).slub, Some(2));
    let b = heap.allocate(33, 64, 0, &mut pages, &mut buddy, &mut mem);
    assert_eq!(PageFrame::new(0x80201).get_page(&pages).slub, Some(3));
    heap.dealloc(b, 0, &mut pages, &mut buddy, &mut mem);
    heap.dealloc(a, 0, &mut pages, &mut buddy, &mut mem);
    assert_eq!(heap.allocate(64, 8, 0, &mut pages, &mut buddy, &mut mem), b);
}

#[test]
fn many_allocations_and_frees() {
    let (mut pages, mut buddy, mut mem) = setup();
    let mut heap = Slub::new();
    let mut v = Vec::new();
    for i in 0..2000u64 {
        let p = heap._alloc(8 + (i % 7) * 40, (i % 3) as usize, &mut pages, &mut buddy, &mut mem);
        assert_ne!(p, 0);
        assert!(!v.contains(&p));
        v.push(p);
    }
    for (i, p) in v.iter().enumerate() {
        heap._dealloc(*p, (i % 4) as usize, &mut pages, &mut buddy, &mut mem);
    }
    for i in 0..2000u64 {
        assert_ne!(heap._alloc(8 + (i % 7) * 40, 0, &mut pages, &mut buddy, &mut mem), 0);
    }
}
