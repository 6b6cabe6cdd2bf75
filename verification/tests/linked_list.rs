use wcore::mm::buddy::LinkedList;
use wcore::mm::memory::Memory;
use wcore::mm::{PhysicalAddr, VirtualAddr};

const BASE: u64 = 0xffff_ffc0_8000_0000;

fn four() -> (LinkedList, Memory) {
    let mut mem = Memory::new(PhysicalAddr::new(0x8000_0000), 4096).unwrap();
    let mut list = LinkedList::new();
    for a in [BASE, BASE + 8, BASE + 16, BASE + 24] {
        list.push(&mut mem, a);
    }
    (list, mem)
}

fn items(list: &LinkedList, mem: &Memory) -> Vec<u64> {
    let mut v = Vec::new();
    let mut it = list.iter();
    while let Some(a) = it.next(mem) {
        v.push(a);
    }
    v
}

#[test]
fn linked_list_test() {
    let mut mem = Memory::new(PhysicalAddr::new(0x8000_0000), 4096).unwrap();
    let mut list = LinkedList::new();
    let a: u64 = BASE;
    list.push(&mut mem, a);
    let b: u64 = BASE + 8;
    list.push(&mut mem, b);
    let c: u64 = BASE + 16;
    list.push(&mut mem, c);
    let d: u64 = BASE + 24;
    list.push(&mut mem, d);

    println!("test 1");
    let mut it = list.iter();
    while let Some(item) = it.next(&mem) {
        println!("{:?}", item);
    }

    println!("test 2");
    let mut it = list.iter_mut();
    while let Some(item) = it.next(&list, &mem) {
        println!("{:?}", item.data());
    }

    println!("test 3");
    let mut iter = list.iter_mut();
    iter.next(&list, &mem).unwrap().remove(&mut list, &mut mem);
    iter.next(&list, &mem);
    iter.next(&list, &mem).unwrap().remove(&mut list, &mut mem);
    while let Some(item) = iter.next(&list, &mem) {
        println!("{:?}", item.data());
    }

    println!("test 4");
    let mut it = list.iter_mut();
    while let Some(item) = it.next(&list, &mem) {
        println!("{:?}", item.data());
    }
    assert_eq!(items(&list, &mem), vec![c, a]);
}

#[test]
fn push_puts_in_front_and_links_through_memory() {
    let (list, mem) = four();
    assert_eq!(items(&list, &mem), vec![BASE + 24, BASE + 16, BASE + 8, BASE]);
    assert_eq!(list.head, BASE + 24);
    assert_eq!(mem.read(VirtualAddr::new(BASE + 24)), BASE + 16);
    assert_eq!(mem.read(VirtualAddr::new(BASE)), 0);
}

#[test]
fn pop_takes_the_first() {
    let (mut list, mem) = four();
    assert!(!list.empty());
    assert_eq!(list.pop(&mem), Some(BASE + 24));
    assert_eq!(list.pop(&mem), Some(BASE + 16));
    assert_eq!(items(&list, &mem), vec![BASE + 8, BASE]);
    assert_eq!(list.pop(&mem), Some(BASE + 8));
    assert_eq!(list.pop(&mem), Some(BASE));
    assert_eq!(list.pop(&mem), None);
    assert!(list.empty());
}

#[test]
fn remove_unlinks_in_the_middle_and_at_the_end() {
    let (mut list, mut mem) = four();
    let mut it = list.iter_mut();
    it.next(&list, &mem);
    let second = it.next(&list, &mem).unwrap();
    assert_eq!(second.data(), BASE + 16);
    second.remove(&mut list, &mut mem);
    assert_eq!(items(&list, &mem), vec![BASE + 24, BASE + 8, BASE]);
    let mut it = list.iter_mut();
    it.next(&list, &mem);
    it.next(&list, &mem);
    let last = it.next(&list, &mem).unwrap();
    last.remove(&mut list, &mut mem);
    assert_eq!(items(&list, &mem), vec![BASE + 24, BASE + 8]);
}

#[test]
fn swap_and_reset() {
    let (mut list, mem) = four();
    let mut other = LinkedList::new();
    list.swap(&mut other);
    assert!(list.empty());
    assert_eq!(items(&other, &mem).len(), 4);
    other.reset();
    assert!(other.empty());
}

#[test]
fn memory_bounds() {
    assert!(Memory::new(PhysicalAddr::new(0x8000_0001), 4096).is_none());
    assert!(Memory::new(PhysicalAddr::new(0x40_0000_0000), 8).is_none());
    let mem = Memory::new(PhysicalAddr::new(0x8000_0000), 4096).unwrap();
    assert!(mem.has(VirtualAddr::new(BASE)));
    assert!(mem.has(VirtualAddr::new(BASE + 4088)));
    assert!(!mem.has(VirtualAddr::new(BASE + 4096)));
    assert!(!mem.has(VirtualAddr::new(BASE + 4)));
    assert!(!mem.has(VirtualAddr::new(BASE - 8)));
    assert!(!mem.has(VirtualAddr::new(0)));
    assert!(mem.has_frame(0x80000));
    assert!(!mem.has_frame(0x80001));
    assert!(!mem.has_frame(0x7ffff));
}
