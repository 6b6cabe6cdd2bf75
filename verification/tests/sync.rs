use wcore::sync::spin::{SpinStep, NO_OWNER};
use wcore::sync::{PerCpu, SeqLock, Spin};

#[test]
fn spin_lock_and_unlock() {
    let mut s = Spin::new(5u32);
    assert!(!s.locked);
    assert_eq!(s.owner, NO_OWNER);
    let g = s.lock(3, true);
    assert!(s.locked);
    assert_eq!(s.owner, 3);
    assert_eq!(*s.get(), 5);
    assert!(s.unlock(g));
    assert!(!s.locked);
    assert_eq!(s.owner, NO_OWNER);
    let g = s.lock(0, false);
    assert!(!s.unlock(g));
}

#[test]
fn spin_steps() {
    let mut s = Spin::new(());
    assert_eq!(s.step(1, 0), SpinStep::Acquired);
    assert_eq!(s.step(1, 0), SpinStep::Reentered);
    assert_eq!(s.step(2, 0), SpinStep::Busy);
    assert_eq!(s.step(2, 0xf_fffe), SpinStep::Busy);
    assert_eq!(s.step(2, 0xf_ffff), SpinStep::Deadlocked);
    assert_eq!(s.owner, 1);
}

#[test]
fn seqlock_counts_writers() {
    let mut s = SeqLock::new(7u64);
    assert_eq!(s.read(), Some(&7));
    let g = s.writer_lock(0, true);
    assert_eq!(s.seq, 1);
    assert_eq!(s.read(), None);
    s.data = 8;
    assert!(s.writer_unlock(g));
    assert_eq!(s.seq, 2);
    assert_eq!(s.read(), Some(&8));
    assert!(!s.write(1, false, 9));
    assert_eq!(s.seq, 4);
    assert_eq!(s.read(), Some(&9));
}

#[test]
fn per_hart_cells() {
    let mut p: PerCpu<u32> = PerCpu::new(1);
    let g = p.get(3, true);
    assert_eq!(*p.cell(&g), 1);
    p.set_cell(&g, 9);
    assert_eq!(*p.cell(&g), 9);
    assert!(p.unlock(g));
    let g = p.get(2, false);
    assert_eq!(*p.cell(&g), 1);
    assert!(!p.unlock(g));
}
