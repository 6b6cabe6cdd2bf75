use std::sync::Arc;
use wcore::arch::sstatus::SSTATUS;
use wcore::dtb::{be32, parse_dtb_early, DtbError};
use wcore::interrupt::{interrupt_handler, intr, intr_off, intr_on, Trap};
use wcore::mm::buddy::buddy::Buddy;
use wcore::mm::memory::Memory;
use wcore::mm::page::PageFrame;
use wcore::mm::PhysicalAddr;
use wcore::proc::cpu::mycpu;
use wcore::proc::{Process, Stack, Thread, ThreadId, CPU};
use wcore::sync::{PerCpu, SeqLock, Spin};
use wcore::timer::{read_tick, set_next_timeout};

fn header(magic: u32, version: u32) -> Vec<u8> {
    let mut v = Vec::new();
    for w in [magic, 0x1234, 0x38, 0x400, 0x28, version, 16, 0, 0x80, 0x3c8] {
        v.extend_from_slice(&w.to_be_bytes());
    }
    v
}

#[test]
fn device_tree_header() {
    let h = parse_dtb_early(&header(0xd00d_feed, 17)).unwrap();
    assert_eq!(h.magic, 0xd00d_feed);
    assert_eq!(h.total_size, 0x1234);
    assert_eq!(h.off_dt_struct, 0x38);
    assert_eq!(h.off_dt_strings, 0x400);
    assert_eq!(h.off_mem_rsvmap, 0x28);
    assert_eq!(h.version, 17);
    assert_eq!(h.last_comp_version, 16);
    assert_eq!(h.boot_cpuid_phys, 0);
    assert_eq!(h.size_dt_strings, 0x80);
    assert_eq!(h.size_dt_struct, 0x3c8);
    assert_eq!(be32(&vec![0x12, 0x34, 0x56, 0x78, 0x9a], 1), 0x3456_789a);
}

#[test]
fn device_tree_header_errors() {
    assert_eq!(parse_dtb_early(&vec![0xd0, 0x0d, 0xfe, 0xed]), Err(DtbError::Short));
    assert_eq!(parse_dtb_early(&header(0xedfe_0dd0, 17)), Err(DtbError::BadMagic(0xedfe_0dd0)));
    assert_eq!(parse_dtb_early(&header(0xd00d_feed, 16)), Err(DtbError::BadVersion(16)));
    assert!(parse_dtb_early(&header(0xd00d_feed, 18)).is_ok());
}

#[test]
fn traps() {
    assert_eq!(interrupt_handler(0x8000_0000_0000_0005, 0), Trap::Timer);
    assert_eq!(interrupt_handler(5, 0), Trap::Unknown(5));
    assert_eq!(interrupt_handler(0x8000_0000_0000_0009, 7), Trap::Unknown(0x8000_0000_0000_0009));
}

#[test]
fn interrupt_enable_bit() {
    assert!(!intr(0x120));
    assert!(intr(0x122));
    assert_eq!(intr_on(0x120), 0x122);
    assert_eq!(intr_off(0x122), 0x120);
    assert_eq!(intr_off(0x120), 0x120);
    assert_eq!(
        [SSTATUS::SPP.mask(), SSTATUS::SPIE.mask(), SSTATUS::UPIE.mask(), SSTATUS::SIE.mask(),
         SSTATUS::UIE.mask()],
        [0x100, 0x20, 0x10, 2, 1]
    );
}

#[test]
fn timer_ticks() {
    let mut tick = SeqLock::new(98u64);
    assert_eq!(set_next_timeout(&mut tick, 0, 1_000), (101_000, None));
    assert_eq!(read_tick(&tick), Some(99));
    assert_eq!(set_next_timeout(&mut tick, 0, u64::MAX), (99_999, Some(100)));
    assert_eq!(read_tick(&tick), Some(100));
    assert_eq!(tick.seq, 4);
    let g = tick.writer_lock(1, false);
    assert_eq!(read_tick(&tick), None);
    tick.writer_unlock(g);
}

#[test]
fn threads_and_stacks() {
    let mut mem = Memory::new(PhysicalAddr::new(0x8020_0000), 0x20_0000).unwrap();
    let mut buddy: Spin<Buddy<10>> = Spin::new(Buddy::new());
    buddy.data.add_free_memory(&mut mem, PageFrame::new(0x80200), PageFrame::new(0x80208));
    let process = Arc::new(Process::new());
    assert!(!process.is_user);
    let mut counter = 7u64;
    assert!(buddy.data.has_run(&mem, 2));
    let t = Thread::new(process.clone(), &mut counter, &mut buddy, 0, &mut mem);
    assert_eq!(t.tid.0, 7);
    assert_eq!(counter, 8);
    assert_eq!(t.stack.pages, PageFrame::new(0x80200));
    assert!(t.inner.data.context.is_none());
    let s = Stack::new(&mut buddy, 0, &mut mem);
    assert_eq!(s.pages, PageFrame::new(0x80204));
    assert!(!buddy.data.has_run(&mem, 2));
    assert_eq!(counter, 8);
    s.release(&mut buddy, 0, &mut mem);
    assert!(buddy.data.has_run(&mem, 2));
    let s = Stack::new(&mut buddy, 0, &mut mem);
    assert_eq!(s.pages, PageFrame::new(0x80204));
    s.release(&mut buddy, 0, &mut mem);
    let t = Thread::new(process, &mut counter, &mut buddy, 0, &mut mem);
    assert_eq!((t.tid.0, t.stack.pages, counter), (8, PageFrame::new(0x80204), 9));
    let mut c = u64::MAX;
    assert_eq!(ThreadId::new(&mut c).0, u64::MAX);
    assert_eq!(c, 0);
}

#[test]
fn hart_state() {
    let cpus: PerCpu<CPU> = PerCpu {
        data: [CPU::new(), CPU::new(), CPU::new(), CPU::new(), CPU::new(), CPU::new(), CPU::new(),
               CPU::new()],
    };
    let g = mycpu(&cpus, 5, true);
    assert_eq!((g.hart, g.irq), (5, true));
    assert!(cpus.cell(&g).current_thread.is_none());
}
