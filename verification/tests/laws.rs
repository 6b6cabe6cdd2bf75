use wcore::mm::allocator::slub::MemCache;
use wcore::mm::buddy::buddy::Buddy;
use wcore::mm::memblock::MemBlock;
use wcore::mm::memory::Memory;
use wcore::mm::page::{PageFrame, Pages};
use wcore::mm::PhysicalAddr;
use wcore::sync::Spin;

const K: u64 = 0xffff_ffc0_0000_0000;

fn setup() -> (Pages, Spin<Buddy<10>>, Memory) {
    let mut mem = Memory::new(PhysicalAddr::new(0x8020_0000), 0x20_0000).unwrap();
    let mut buddy: Buddy<10> = Buddy::new();
    buddy.add_free_memory(&mut mem, PageFrame::new(0x80203), PageFrame::new(0x803f1));
    let mut mb: MemBlock<8, 8> = MemBlock::new();
    mb.add(PhysicalAddr::new(0x8000_0000), 0x20_0000);
    (Pages::init(&mut mb, 0x400).unwrap(), Spin::new(buddy), mem)
}

fn runs(buddy: &Buddy<10>, mem: &Memory) -> Vec<(usize, u64)> {
    let mut v = Vec::new();
    for k in 0..10 {
        let mut it = buddy.free_list[k].iter();
        while let Some(a) = it.next(mem) {
            v.push((k, a));
        }
    }
    v
}

fn next(seed: &mut u64) -> u64 {
    *seed = seed.wrapping_mul(6364136223846793005).wrapping_add(1442695040888963407);
    *seed >> 33
}

#[test]
fn free_runs_are_aligned_distinct_and_add_up() {
    let (_, mut buddy, mut mem) = setup();
    let initial: u64 = 0x803f1 - 0x80203;
    let mut held: Vec<(PageFrame, usize)> = Vec::new();
    let mut seed = 1u64;
    for _ in 0..400 {
        if next(&mut seed) % 3 != 0 || held.is_empty() {
            let ord = (next(&mut seed) % 4) as usize;
            if let Some(f) = buddy.data.alloc_pages(&mut mem, ord) {
                assert_eq!(f.0 % (1 << ord), 0);
                held.push((f, ord));
            }
        } else {
            let i = (next(&mut seed) as usize) % held.len();
            let (f, ord) = held.swap_remove(i);
            buddy.data.free_pages(&mut mem, f, ord);
        }
        let free = runs(&buddy.data, &mem);
        let mut sum = 0u64;
        for (i, (k, a)) in free.iter().enumerate() {
            assert_eq!(a % (4096u64 << k), 0);
            assert_eq!((a - K) % (4096u64 << k), 0);
            sum += 1 << k;
            for (k2, b) in free[i + 1..].iter() {
                assert!(a + (4096u64 << k) <= *b || b + (4096u64 << k2) <= *a);
            }
        }
        let allocated: u64 = held.iter().map(|(_, ord)| 1u64 << ord).sum();
        assert_eq!(sum + allocated, initial);
    }
}

#[test]
fn memblock_stays_sorted_and_merged() {
    let mut mb: MemBlock<32, 32> = MemBlock::new();
    let mut seed = 7u64;
    for _ in 0..200 {
        let base = PhysicalAddr::new(0x1000 * (next(&mut seed) % 64));
        let size = 0x1000 * (1 + next(&mut seed) % 4);
        if next(&mut seed) % 2 == 0 {
            if mb.can_add(base, size) {
                mb.add(base, size);
            }
        } else if mb.can_reserve(base, size) {
            mb.reserve(base, size);
        }
        for t in [&mb.memory.region[0..mb.memory.len], &mb.reserved.region[0..mb.reserved.len]] {
            for w in t.windows(2) {
                assert!(w[0].base.0 + w[0].size < w[1].base.0);
            }
        }
    }
}

#[test]
fn partial_pages_have_free_objects_and_the_others_none() {
    let (mut pages, mut buddy, mut mem) = setup();
    let mut c = MemCache::new(512, 8);
    let mut held: Vec<u64> = Vec::new();
    let mut seed = 3u64;
    for _ in 0..600 {
        let hart = (next(&mut seed) % 3) as usize;
        if next(&mut seed) % 5 < 3 || held.is_empty() {
            let p = c.allocate(hart, &mut pages, &mut buddy, &mut mem);
            assert_ne!(p, 0);
            assert!(!held.contains(&p));
            held.push(p);
        } else {
            let i = (next(&mut seed) as usize) % held.len();
            let p = held.swap_remove(i);
            let head = PageFrame::new((p - K) >> 12).get_head_page(&pages);
            c.dealloc(hart, &mut pages, &mut buddy, &mut mem, p, head);
        }
        let mut on_list = Vec::new();
        let mut f = c.node.data.partial.next;
        while f != 0 {
            on_list.push(f);
            f = PageFrame::new(f).get_page(&pages).list_node.data.next;
        }
        assert_eq!(on_list.len(), c.node.data.nr_partial);
        for p in held.iter() {
            let frame = (p - K) >> 12;
            let head = PageFrame::new(frame).get_head_page(&pages);
            assert!(head.0 <= frame && frame < head.0 + 2);
            let d = head.get_page(&pages);
            assert_eq!(d.slub, Some(0));
            if on_list.contains(&head.0) {
                assert!(d.inuse < c.nobjs);
                assert!(!d.freelist.data.empty());
            } else {
                assert_eq!(d.inuse, c.nobjs);
                assert!(d.freelist.data.empty());
            }
        }
    }
}
