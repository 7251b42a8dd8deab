use stride_kernel::config::{BIG_STRIDE, PAGE_SIZE, USER_STACK_PAGES};
use stride_kernel::frame::FrameManager;
use stride_kernel::kernel::{AppImage, Kernel};
use stride_kernel::memory_set::{ImageSegment, ProgramImage};
use stride_kernel::sched::Stride;
use stride_kernel::syscall::{
    sys_close, sys_exec, sys_exit, sys_fork, sys_fstat, sys_get_time, sys_getpid, sys_linkat,
    sys_mmap, sys_munmap, sys_open, sys_read, sys_sbrk, sys_set_priority, sys_spawn,
    sys_unlinkat, sys_waitpid, sys_write, sys_yield,
};
use stride_kernel::task::{TaskControlBlock, TaskStatus};
use stride_kernel::uaccess::{copy_in, copy_out, translated_str};

fn tiny_image() -> ProgramImage {
    ProgramImage {
        entry: 0x1000,
        segments: vec![ImageSegment { start_vpn: 1, pages: 1, perm: 2 | 4 | 8 | 16, data: vec![7, 8, 9] }],
    }
}

fn boot() -> Kernel {
    let mut fm = FrameManager::new(128);
    let img = tiny_image();
    let mut t = TaskControlBlock::new(&mut fm, &img, 0, 0).expect("initial task");
    t.inner.task_status = TaskStatus::Running;
    let mut apps = Vec::new();
    apps.push(AppImage { name: b"init".to_vec(), image: tiny_image() });
    Kernel {
        fm,
        tasks: vec![Some(t)],
        recycled_pids: Vec::new(),
        current: Some(0),
        ready: Vec::new(),
        apps,
        dir: Vec::new(),
        files: Vec::new(),
        open_files: Vec::new(),
        console_out: Vec::new(),
        console_in: Vec::new(),
        time_us: 0,
    }
}

fn user_sp(k: &Kernel) -> usize {
    k.tasks[0].as_ref().unwrap().inner.base_size
}

#[test]
fn stride_comparison_agrees_within_window() {
    // wraparound-safe comparison agrees with numeric order when the
    // difference is within BIG_STRIDE / 2
    assert!(Stride(0).precedes(&Stride(100)));
    assert!(!Stride(100).precedes(&Stride(0)));
    assert!(Stride(5).precedes(&Stride(5)));
    let half = BIG_STRIDE / 2;
    assert!(Stride(10).precedes(&Stride(10 + half)));
    // beyond the window the apparently larger value is treated as behind
    assert!(!Stride(0).precedes(&Stride(half + 1)));
    assert!(Stride(half + 1).precedes(&Stride(0)));
}

#[test]
fn proportional_share_two_tasks() {
    // priorities 2 and 4: the higher priority runs about twice as often
    let mut k = boot();
    assert_eq!(sys_set_priority(&mut k, 2), 2);
    let child = sys_fork(&mut k);
    assert!(child >= 0);
    // the child starts with default priority; give it 4
    k.tasks[child as usize].as_mut().unwrap().inner.taskinfo.priority = 4;
    k.tasks[child as usize].as_mut().unwrap().inner.taskinfo.pass = BIG_STRIDE / 4;
    let mut runs = [0usize; 2];
    for _ in 0..300 {
        sys_yield(&mut k);
        let c = k.current.unwrap();
        runs[if c == 0 { 0 } else { 1 }] += 1;
    }
    // dispatch ratio converges to 4 : 2
    assert!(runs[1] > runs[0]);
    let ratio = runs[1] as f64 / runs[0] as f64;
    assert!(ratio > 1.8 && ratio < 2.2);
}

#[test]
fn mmap_munmap_round_trip_restores_regions() {
    let mut k = boot();
    let regions_before = k.tasks[0].as_ref().unwrap().inner.memory_set.areas.len();
    assert_eq!(sys_mmap(&mut k, 10 * PAGE_SIZE, 2 * PAGE_SIZE, 3), 0);
    assert_eq!(k.tasks[0].as_ref().unwrap().inner.memory_set.areas.len(), regions_before + 1);
    assert_eq!(sys_munmap(&mut k, 10 * PAGE_SIZE, 2 * PAGE_SIZE), 0);
    assert_eq!(k.tasks[0].as_ref().unwrap().inner.memory_set.areas.len(), regions_before);
}

#[test]
fn mmap_overlap_fails_and_leaves_space_unchanged() {
    let mut k = boot();
    assert_eq!(sys_mmap(&mut k, 10 * PAGE_SIZE, 2 * PAGE_SIZE, 3), 0);
    let areas_before = k.tasks[0].as_ref().unwrap().inner.memory_set.areas.len();
    // overlapping an existing mapping always fails
    assert_eq!(sys_mmap(&mut k, 11 * PAGE_SIZE, PAGE_SIZE, 3), -1);
    // overlapping a program segment fails too
    assert_eq!(sys_mmap(&mut k, PAGE_SIZE, PAGE_SIZE, 3), -1);
    assert_eq!(k.tasks[0].as_ref().unwrap().inner.memory_set.areas.len(), areas_before);
}

#[test]
fn mmap_rejects_bad_arguments() {
    let mut k = boot();
    assert_eq!(sys_mmap(&mut k, 10 * PAGE_SIZE + 1, PAGE_SIZE, 3), -1);
    assert_eq!(sys_mmap(&mut k, 10 * PAGE_SIZE, PAGE_SIZE, 0), -1);
    assert_eq!(sys_mmap(&mut k, 10 * PAGE_SIZE, PAGE_SIZE, 8), -1);
    assert_eq!(sys_munmap(&mut k, 10 * PAGE_SIZE, PAGE_SIZE), -1);
}

#[test]
fn sbrk_round_trip_restores_break_and_unmaps_one_page() {
    let mut k = boot();
    let brk0 = k.tasks[0].as_ref().unwrap().inner.program_brk;
    let pages0 = {
        let ms = &k.tasks[0].as_ref().unwrap().inner.memory_set;
        ms.areas.iter().map(|a| a.end_vpn - a.start_vpn).sum::<usize>()
    };
    let r1 = sys_sbrk(&mut k, 4096);
    assert_eq!(r1 as usize, brk0);
    let pages1 = {
        let ms = &k.tasks[0].as_ref().unwrap().inner.memory_set;
        ms.areas.iter().map(|a| a.end_vpn - a.start_vpn).sum::<usize>()
    };
    assert_eq!(pages1, pages0 + 1);
    let r2 = sys_sbrk(&mut k, -4096);
    assert_eq!(r2 as usize, brk0 + 4096);
    assert_eq!(k.tasks[0].as_ref().unwrap().inner.program_brk, brk0);
    let pages2 = {
        let ms = &k.tasks[0].as_ref().unwrap().inner.memory_set;
        ms.areas.iter().map(|a| a.end_vpn - a.start_vpn).sum::<usize>()
    };
    assert_eq!(pages2, pages0);
}

#[test]
fn sbrk_below_heap_bottom_fails() {
    let mut k = boot();
    assert_eq!(sys_sbrk(&mut k, -4096), -1);
}

#[test]
fn set_priority_boundary() {
    let mut k = boot();
    let prio0 = k.tasks[0].as_ref().unwrap().inner.taskinfo.priority;
    let pass0 = k.tasks[0].as_ref().unwrap().inner.taskinfo.pass;
    // priority 1 fails and leaves priority and pass unchanged
    assert_eq!(sys_set_priority(&mut k, 1), -1);
    assert_eq!(k.tasks[0].as_ref().unwrap().inner.taskinfo.priority, prio0);
    assert_eq!(k.tasks[0].as_ref().unwrap().inner.taskinfo.pass, pass0);
    assert_eq!(sys_set_priority(&mut k, 0), -1);
    // priority 2 succeeds and changes the pass immediately
    assert_eq!(sys_set_priority(&mut k, 2), 2);
    assert_eq!(k.tasks[0].as_ref().unwrap().inner.taskinfo.priority, 2);
    assert_eq!(k.tasks[0].as_ref().unwrap().inner.taskinfo.pass, BIG_STRIDE / 2);
}

#[test]
fn cross_page_buffer_write_is_byte_identical() {
    let mut k = boot();
    assert_eq!(sys_mmap(&mut k, 10 * PAGE_SIZE, 2 * PAGE_SIZE, 3), 0);
    let data: Vec<u8> = (0..64u8).collect();
    let crossing = 11 * PAGE_SIZE - 32;
    let straight = 10 * PAGE_SIZE + 100;
    {
        let t = k.tasks[0].take().unwrap();
        let ms = &t.inner.memory_set;
        assert!(copy_out(ms, &mut k.fm, crossing, &data));
        assert!(copy_out(ms, &mut k.fm, straight, &data));
        let a = copy_in(ms, &k.fm, crossing, 64).unwrap();
        let b = copy_in(ms, &k.fm, straight, 64).unwrap();
        assert_eq!(a, data);
        assert_eq!(b, data);
        assert_eq!(a, b);
        k.tasks[0] = Some(t);
    }
}

#[test]
fn translation_rejects_unmapped_pointer() {
    let mut k = boot();
    let t = k.tasks[0].take().unwrap();
    let data = vec![1u8, 2, 3];
    assert!(!copy_out(&t.inner.memory_set, &mut k.fm, 200 * PAGE_SIZE, &data));
    assert!(copy_in(&t.inner.memory_set, &k.fm, 200 * PAGE_SIZE, 3).is_none());
    k.tasks[0] = Some(t);
}

#[test]
fn waitpid_collects_zombie_and_reports_codes() {
    let mut k = boot();
    let c1 = sys_fork(&mut k);
    let c2 = sys_fork(&mut k);
    assert!(c1 >= 0 && c2 >= 0 && c1 != c2);
    // one child still Running, the other a Zombie with exit code 7
    k.tasks[c1 as usize].as_mut().unwrap().inner.task_status = TaskStatus::Running;
    k.ready.retain(|&p| p != c1 as usize);
    k.tasks[c2 as usize].as_mut().unwrap().inner.task_status = TaskStatus::Zombie;
    k.ready.retain(|&p| p != c2 as usize);
    k.tasks[c2 as usize].as_mut().unwrap().inner.exit_code = 7;
    let ptr = user_sp(&k) - 16;
    let r = sys_waitpid(&mut k, -1, ptr);
    assert_eq!(r, c2);
    let t = k.tasks[0].take().unwrap();
    let written = copy_in(&t.inner.memory_set, &k.fm, ptr, 4).unwrap();
    k.tasks[0] = Some(t);
    assert_eq!(written, 7i32.to_le_bytes().to_vec());
    // the zombie is gone; the remaining child still runs
    assert_eq!(sys_waitpid(&mut k, -1, ptr), -2);
    // with no children at all the call reports -1
    k.tasks[0].as_mut().unwrap().inner.children.clear();
    assert_eq!(sys_waitpid(&mut k, -1, ptr), -1);
}

#[test]
fn fork_then_exec_leaves_parent_untouched() {
    let mut k = boot();
    let regions0: Vec<(usize, usize, u8)> = k.tasks[0]
        .as_ref()
        .unwrap()
        .inner
        .memory_set
        .areas
        .iter()
        .map(|a| (a.start_vpn, a.end_vpn, a.perm))
        .collect();
    let fds0 = k.tasks[0].as_ref().unwrap().inner.fd_table.clone();
    let child = sys_fork(&mut k);
    assert!(child >= 0);
    // run the child and replace its program
    sys_yield(&mut k);
    while k.current != Some(child as usize) {
        sys_yield(&mut k);
    }
    // exec needs the path in the child's memory
    let sp = k.tasks[child as usize].as_ref().unwrap().inner.base_size;
    let t = k.tasks[child as usize].take().unwrap();
    assert!(copy_out(&t.inner.memory_set, &mut k.fm, sp - 8, &b"init\0".to_vec()));
    k.tasks[child as usize] = Some(t);
    assert_eq!(sys_exec(&mut k, sp - 8), 0);
    let regions1: Vec<(usize, usize, u8)> = k.tasks[0]
        .as_ref()
        .unwrap()
        .inner
        .memory_set
        .areas
        .iter()
        .map(|a| (a.start_vpn, a.end_vpn, a.perm))
        .collect();
    assert_eq!(regions0, regions1);
    assert_eq!(fds0, k.tasks[0].as_ref().unwrap().inner.fd_table);
}

#[test]
fn fork_child_returns_zero_in_trap_frame() {
    let mut k = boot();
    let child = sys_fork(&mut k);
    assert!(child >= 0);
    assert_eq!(k.tasks[child as usize].as_ref().unwrap().inner.trap_cx.a0, 0);
    assert_eq!(
        k.tasks[child as usize].as_ref().unwrap().inner.parent,
        Some(0)
    );
}

#[test]
fn spawn_builds_fresh_child_from_image() {
    let mut k = boot();
    let sp = user_sp(&k);
    let t = k.tasks[0].take().unwrap();
    assert!(copy_out(&t.inner.memory_set, &mut k.fm, sp - 8, &b"init\0".to_vec()));
    k.tasks[0] = Some(t);
    let child = sys_spawn(&mut k, sp - 8);
    assert!(child >= 0);
    assert_eq!(k.tasks[child as usize].as_ref().unwrap().inner.parent, Some(0));
    assert_eq!(
        k.tasks[child as usize].as_ref().unwrap().inner.task_status,
        TaskStatus::Ready
    );
    // unknown name fails
    let t = k.tasks[0].take().unwrap();
    assert!(copy_out(&t.inner.memory_set, &mut k.fm, sp - 8, &b"none\0".to_vec()));
    k.tasks[0] = Some(t);
    assert_eq!(sys_spawn(&mut k, sp - 8), -1);
}

#[test]
fn exit_reparents_children_and_records_code() {
    let mut k = boot();
    let c1 = sys_fork(&mut k);
    assert!(c1 >= 0);
    // run the child, give it a grandchild, then exit it
    while k.current != Some(c1 as usize) {
        sys_yield(&mut k);
    }
    let g = sys_fork(&mut k);
    assert!(g >= 0);
    assert_eq!(sys_exit(&mut k, 42), 0);
    assert_eq!(
        k.tasks[c1 as usize].as_ref().unwrap().inner.task_status,
        TaskStatus::Zombie
    );
    assert_eq!(k.tasks[c1 as usize].as_ref().unwrap().inner.exit_code, 42);
    // the grandchild now points at the initial process
    assert_eq!(k.tasks[g as usize].as_ref().unwrap().inner.parent, Some(0));
}

#[test]
fn console_write_and_read() {
    let mut k = boot();
    let sp = user_sp(&k);
    let t = k.tasks[0].take().unwrap();
    assert!(copy_out(&t.inner.memory_set, &mut k.fm, sp - 64, &b"hello".to_vec()));
    k.tasks[0] = Some(t);
    assert_eq!(sys_write(&mut k, 1, sp - 64, 5), 5);
    assert_eq!(k.console_out, b"hello".to_vec());
    // stdout is not readable, stdin not writable
    assert_eq!(sys_read(&mut k, 1, sp - 64, 5), -1);
    assert_eq!(sys_write(&mut k, 0, sp - 64, 5), -1);
    // bad descriptors
    assert_eq!(sys_write(&mut k, 99, sp - 64, 5), -1);
    // read back buffered input
    k.console_in = b"abc".to_vec();
    assert_eq!(sys_read(&mut k, 0, sp - 64, 8), 3);
    let t = k.tasks[0].take().unwrap();
    let got = copy_in(&t.inner.memory_set, &k.fm, sp - 64, 3).unwrap();
    k.tasks[0] = Some(t);
    assert_eq!(got, b"abc".to_vec());
}

#[test]
fn open_write_read_close_file() {
    let mut k = boot();
    let sp = user_sp(&k);
    let t = k.tasks[0].take().unwrap();
    assert!(copy_out(&t.inner.memory_set, &mut k.fm, sp - 64, &b"log\0".to_vec()));
    assert!(copy_out(&t.inner.memory_set, &mut k.fm, sp - 32, &b"data".to_vec()));
    k.tasks[0] = Some(t);
    // create | read-write
    let fd = sys_open(&mut k, sp - 64, 0x200 | 0x2);
    assert!(fd >= 0);
    assert_eq!(sys_write(&mut k, fd as usize, sp - 32, 4), 4);
    assert_eq!(k.files[0], b"data".to_vec());
    // reopen to read from the start
    let fd2 = sys_open(&mut k, sp - 64, 0x2);
    assert!(fd2 >= 0);
    assert_eq!(sys_read(&mut k, fd2 as usize, sp - 16, 4), 4);
    let t = k.tasks[0].take().unwrap();
    let got = copy_in(&t.inner.memory_set, &k.fm, sp - 16, 4).unwrap();
    k.tasks[0] = Some(t);
    assert_eq!(got, b"data".to_vec());
    assert_eq!(sys_close(&mut k, fd as usize), 0);
    assert_eq!(sys_close(&mut k, fd as usize), -1);
    assert_eq!(sys_close(&mut k, 99), -1);
    // opening an unknown name without the create flag fails
    let t = k.tasks[0].take().unwrap();
    assert!(copy_out(&t.inner.memory_set, &mut k.fm, sp - 64, &b"no\0".to_vec()));
    k.tasks[0] = Some(t);
    assert_eq!(sys_open(&mut k, sp - 64, 0x2), -1);
}

#[test]
fn link_and_unlink_names() {
    let mut k = boot();
    let sp = user_sp(&k);
    let t = k.tasks[0].take().unwrap();
    assert!(copy_out(&t.inner.memory_set, &mut k.fm, sp - 64, &b"a\0".to_vec()));
    assert!(copy_out(&t.inner.memory_set, &mut k.fm, sp - 32, &b"b\0".to_vec()));
    k.tasks[0] = Some(t);
    let fd = sys_open(&mut k, sp - 64, 0x200);
    assert!(fd >= 0);
    // a new link to an existing name succeeds once
    assert_eq!(sys_linkat(&mut k, sp - 64, sp - 32), 0);
    assert_eq!(sys_linkat(&mut k, sp - 64, sp - 32), -1);
    assert_eq!(sys_linkat(&mut k, sp - 64, sp - 64), -1);
    assert_eq!(k.dir.len(), 2);
    assert_eq!(k.dir[0].ino, k.dir[1].ino);
    assert_eq!(sys_unlinkat(&mut k, sp - 32), 0);
    assert_eq!(k.dir.len(), 1);
    assert_eq!(sys_unlinkat(&mut k, sp - 32), -1);
}

#[test]
fn get_time_writes_seconds_and_micros() {
    let mut k = boot();
    k.time_us = 3_500_000;
    let sp = user_sp(&k);
    // the 16-byte value straddles nothing here; the layer would split it
    assert_eq!(sys_get_time(&mut k, sp - 32, 0), 0);
    let t = k.tasks[0].take().unwrap();
    let got = copy_in(&t.inner.memory_set, &k.fm, sp - 32, 16).unwrap();
    k.tasks[0] = Some(t);
    assert_eq!(&got[0..8], &3u64.to_le_bytes());
    assert_eq!(&got[8..16], &500_000u64.to_le_bytes());
    // an unmapped pointer is rejected, never a fault
    assert_eq!(sys_get_time(&mut k, 200 * PAGE_SIZE, 0), -1);
}

#[test]
fn getpid_and_yield() {
    let mut k = boot();
    assert_eq!(sys_getpid(&k), 0);
    assert_eq!(sys_yield(&mut k), 0);
    assert_eq!(k.current, Some(0));
}

#[test]
fn translated_str_walks_until_terminator() {
    let mut k = boot();
    let sp = user_sp(&k);
    let t = k.tasks[0].take().unwrap();
    assert!(copy_out(&t.inner.memory_set, &mut k.fm, sp - 64, &b"name\0x".to_vec()));
    let s = translated_str(&t.inner.memory_set, &k.fm, sp - 64).unwrap();
    assert_eq!(s, b"name".to_vec());
    assert!(translated_str(&t.inner.memory_set, &k.fm, 200 * PAGE_SIZE).is_none());
    k.tasks[0] = Some(t);
}

#[test]
fn segment_data_is_loaded() {
    let k = boot();
    let mut k = k;
    let t = k.tasks[0].take().unwrap();
    let got = copy_in(&t.inner.memory_set, &k.fm, PAGE_SIZE, 6).unwrap();
    k.tasks[0] = Some(t);
    // the segment's data bytes, then the zeroed remainder of its page
    assert_eq!(got, vec![7, 8, 9, 0, 0, 0]);
}

#[test]
fn fstat_reports_inode_and_link_count() {
    let mut k = boot();
    let sp = user_sp(&k);
    let t = k.tasks[0].take().unwrap();
    assert!(copy_out(&t.inner.memory_set, &mut k.fm, sp - 64, &b"f\0".to_vec()));
    assert!(copy_out(&t.inner.memory_set, &mut k.fm, sp - 32, &b"g\0".to_vec()));
    k.tasks[0] = Some(t);
    let fd = sys_open(&mut k, sp - 64, 0x200 | 0x2);
    assert!(fd >= 0);
    assert_eq!(sys_linkat(&mut k, sp - 64, sp - 32), 0);
    assert_eq!(sys_fstat(&mut k, fd as usize, sp - 128), 0);
    let t = k.tasks[0].take().unwrap();
    let got = copy_in(&t.inner.memory_set, &k.fm, sp - 128, 24).unwrap();
    k.tasks[0] = Some(t);
    assert_eq!(&got[0..8], &0u64.to_le_bytes());
    assert_eq!(&got[8..16], &0u64.to_le_bytes());
    assert_eq!(&got[16..20], &32768u32.to_le_bytes());
    assert_eq!(&got[20..24], &2u32.to_le_bytes());
    // console descriptors have no inode in the model; bad fds fail too
    assert_eq!(sys_fstat(&mut k, 0, sp - 128), -1);
    assert_eq!(sys_fstat(&mut k, 99, sp - 128), -1);
}

#[test]
fn mmap_keeps_the_heap_growth_corridor() {
    let mut k = boot();
    let hv = user_sp(&k) / PAGE_SIZE;
    let stack_start = hv - USER_STACK_PAGES;
    assert_eq!(sys_munmap(&mut k, stack_start * PAGE_SIZE, USER_STACK_PAGES * PAGE_SIZE), 0);
    // a range swallowing the empty heap marker is refused, although no
    // page of it is mapped: the corridor is kept for sbrk
    assert_eq!(
        sys_mmap(&mut k, stack_start * PAGE_SIZE, (USER_STACK_PAGES + 1) * PAGE_SIZE, 3),
        -1
    );
    // mapping up to the marker is fine, and the heap can still grow
    assert_eq!(
        sys_mmap(&mut k, stack_start * PAGE_SIZE, USER_STACK_PAGES * PAGE_SIZE, 3),
        0
    );
    assert!(sys_sbrk(&mut k, 4096) >= 0);
}
