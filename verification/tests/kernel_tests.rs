use oscore::kernel::Kernel;
use oscore::task::TaskStatus;

const MAP_BASE: usize = 0x10_0000;
const PAGE: usize = 4096;

fn decode_u32(b: &[u8], at: usize) -> u32 {
    (b[at] as u32)
        | ((b[at + 1] as u32) << 8)
        | ((b[at + 2] as u32) << 16)
        | ((b[at + 3] as u32) << 24)
}

fn decode_u64(b: &[u8], at: usize) -> u64 {
    let mut v: u64 = 0;
    for i in (0..8).rev() {
        v = (v << 8) | (b[at + i] as u64);
    }
    v
}

/// A kernel booted with one task of `len` image bytes, dispatched.
fn booted(len: usize) -> Kernel {
    let mut k = Kernel::new();
    let image = vec![7u8; len];
    let pid = k.spawn_initial(&image);
    assert_eq!(pid, 0);
    assert_eq!(k.dispatch_next(), Some(0));
    k
}

#[test]
fn mmap_munmap_roundtrip() {
    let mut k = booted(100);
    for port in 1..8usize {
        assert_eq!(k.sys_mmap(MAP_BASE, 2 * PAGE, port), 0);
        assert_eq!(k.sys_munmap(MAP_BASE, 2 * PAGE), 0);
        assert_eq!(k.sys_munmap(MAP_BASE, 2 * PAGE), -1);
    }
}

#[test]
fn mmap_misaligned_fails_then_aligned_succeeds() {
    let mut k = booted(100);
    assert_eq!(k.sys_mmap(MAP_BASE + 1, PAGE, 3), -1);
    assert_eq!(k.sys_mmap(MAP_BASE + 123, PAGE, 7), -1);
    // nothing was mapped: the same range still maps cleanly
    assert_eq!(k.sys_mmap(MAP_BASE, PAGE, 3), 0);
}

#[test]
fn mmap_invalid_port_fails() {
    let mut k = booted(100);
    assert_eq!(k.sys_mmap(MAP_BASE, PAGE, 0), -1);
    assert_eq!(k.sys_mmap(MAP_BASE, PAGE, 8), -1);
    assert_eq!(k.sys_mmap(MAP_BASE, PAGE, 9), -1);
    assert_eq!(k.sys_mmap(MAP_BASE, PAGE, 16), -1);
    // the failures left the space unchanged
    assert_eq!(k.sys_mmap(MAP_BASE, PAGE, 1), 0);
}

#[test]
fn mmap_overlap_fails_whole_request() {
    let mut k = booted(100);
    assert_eq!(k.sys_mmap(MAP_BASE + PAGE, PAGE, 3), 0);
    // the second page of this request collides; nothing of it maps
    assert_eq!(k.sys_mmap(MAP_BASE, 2 * PAGE, 3), -1);
    // the first page of the failed request is still free
    assert_eq!(k.sys_mmap(MAP_BASE, PAGE, 3), 0);
}

#[test]
fn munmap_misaligned_fails() {
    let mut k = booted(100);
    assert_eq!(k.sys_mmap(MAP_BASE, PAGE, 3), 0);
    assert_eq!(k.sys_munmap(MAP_BASE + 1, PAGE), -1);
    assert_eq!(k.sys_munmap(MAP_BASE, PAGE), 0);
}

#[test]
fn munmap_partial_gap_fails_atomically() {
    let mut k = booted(100);
    assert_eq!(k.sys_mmap(MAP_BASE, PAGE, 3), 0);
    assert_eq!(k.sys_mmap(MAP_BASE + 2 * PAGE, PAGE, 3), 0);
    // the hole at the middle page fails the whole request
    assert_eq!(k.sys_munmap(MAP_BASE, 3 * PAGE), -1);
    // both mapped pages survived
    assert_eq!(k.sys_munmap(MAP_BASE, PAGE), 0);
    assert_eq!(k.sys_munmap(MAP_BASE + 2 * PAGE, PAGE), 0);
}

#[test]
fn mmap_zero_length_maps_nothing() {
    let mut k = booted(100);
    assert_eq!(k.sys_mmap(MAP_BASE, 0, 3), 0);
    // no page was mapped, so unmapping one page fails
    assert_eq!(k.sys_munmap(MAP_BASE, PAGE), -1);
}

#[test]
fn waitpid_lifecycle() {
    let mut k = booted(100);
    assert_eq!(k.sys_mmap(MAP_BASE, PAGE, 3), 0);
    // no child at all
    assert_eq!(k.sys_waitpid(-1, MAP_BASE), -1);
    let child = k.sys_fork();
    assert_eq!(child, 1);
    // child exists but still runs
    assert_eq!(k.sys_waitpid(-1, MAP_BASE), -2);
    assert_eq!(k.sys_waitpid(1, MAP_BASE), -2);
    k.sys_yield();
    // the child has stride 0, the root has already been charged one pass
    assert_eq!(k.dispatch_next(), Some(1));
    k.sys_exit(7);
    assert_eq!(k.dispatch_next(), Some(0));
    assert_eq!(k.sys_waitpid(-1, MAP_BASE), 1);
    let bytes = k.read_user_bytes(MAP_BASE, 4);
    assert_eq!(decode_u32(&bytes, 0), 7);
    // the child is reaped and gone
    assert_eq!(k.sys_waitpid(1, MAP_BASE), -1);
}

#[test]
fn waitpid_writes_negative_exit_code() {
    let mut k = booted(100);
    assert_eq!(k.sys_mmap(MAP_BASE, PAGE, 3), 0);
    assert_eq!(k.sys_fork(), 1);
    k.sys_yield();
    assert_eq!(k.dispatch_next(), Some(1));
    k.sys_exit(-3);
    assert_eq!(k.dispatch_next(), Some(0));
    assert_eq!(k.sys_waitpid(1, MAP_BASE), 1);
    let bytes = k.read_user_bytes(MAP_BASE, 4);
    assert_eq!(decode_u32(&bytes, 0) as i32, -3);
}

#[test]
fn set_priority_floor() {
    let mut k = booted(100);
    assert_eq!(k.sys_set_priority(1), -1);
    assert_eq!(k.sys_set_priority(0), -1);
    assert_eq!(k.sys_set_priority(-5), -1);
    assert_eq!(k.sys_set_priority(2), 2);
    assert_eq!(k.sys_set_priority(40), 40);
}

#[test]
fn stride_fairness_two_to_one() {
    let mut k = Kernel::new();
    let image = vec![0u8; 64];
    k.spawn_initial(&image);
    assert_eq!(k.dispatch_next(), Some(0));
    let a = k.sys_spawn(&image) as usize;
    let b = k.sys_spawn(&image) as usize;
    k.sys_exit(0);
    let mut count_a: u32 = 0;
    let mut count_b: u32 = 0;
    let mut prio_set_a = false;
    let mut prio_set_b = false;
    for _ in 0..300 {
        let p = k.dispatch_next().expect("two tasks stay runnable");
        if p == a {
            if !prio_set_a {
                assert_eq!(k.sys_set_priority(2), 2);
                prio_set_a = true;
            }
            count_a += 1;
        } else {
            assert_eq!(p, b);
            if !prio_set_b {
                assert_eq!(k.sys_set_priority(4), 4);
                prio_set_b = true;
            }
            count_b += 1;
        }
        k.sys_yield();
    }
    assert_eq!(count_a + count_b, 300);
    // priority 4 gets close to twice the dispatches of priority 2
    assert!(count_b >= 2 * count_a - 10, "{count_a} vs {count_b}");
    assert!(count_b <= 2 * count_a + 10, "{count_a} vs {count_b}");
}

#[test]
fn dispatch_is_deterministic_on_ties() {
    let mut k = Kernel::new();
    let image = vec![0u8; 64];
    let first = k.spawn_initial(&image);
    let second = k.spawn_initial(&image);
    // both strides are zero: queue order decides
    assert_eq!(k.dispatch_next(), Some(first));
    k.sys_yield();
    assert_eq!(k.dispatch_next(), Some(second));
}

#[test]
fn dispatch_with_empty_queue_idles() {
    let mut k = Kernel::new();
    assert_eq!(k.dispatch_next(), None);
}

#[test]
fn syscall_counts_are_exact() {
    let mut k = booted(100);
    for _ in 0..3 {
        k.count_syscall(64);
    }
    k.count_syscall(93);
    let counts = k.get_syscall_times();
    assert_eq!(counts.len(), 500);
    for (id, c) in counts.iter().enumerate() {
        let expected = match id {
            64 => 3,
            93 => 1,
            _ => 0,
        };
        assert_eq!(*c, expected, "identifier {id}");
    }
    // a forked child starts counting from zero again
    let child = k.sys_fork() as usize;
    let tcb = k.tasks.iter().find(|t| t.pid == child).unwrap();
    assert!(tcb.syscall_cnt.iter().all(|&c| c == 0));
}

#[test]
fn get_time_exact_and_monotone() {
    let mut k = booted(100);
    assert_eq!(k.sys_mmap(MAP_BASE, PAGE, 3), 0);
    k.advance_clock(3_250_007);
    assert_eq!(k.sys_get_time(MAP_BASE, 0), 0);
    let b1 = k.read_user_bytes(MAP_BASE, 16);
    assert_eq!(decode_u64(&b1, 0), 3);
    assert_eq!(decode_u64(&b1, 8), 250_007);
    k.advance_clock(123);
    assert_eq!(k.sys_get_time(MAP_BASE, 0), 0);
    let b2 = k.read_user_bytes(MAP_BASE, 16);
    let (s1, u1) = (decode_u64(&b1, 0), decode_u64(&b1, 8));
    let (s2, u2) = (decode_u64(&b2, 0), decode_u64(&b2, 8));
    assert!(s2 > s1 || (s2 == s1 && u2 >= u1));
}

#[test]
fn get_time_record_straddles_page_boundary() {
    let mut k = booted(100);
    assert_eq!(k.sys_mmap(MAP_BASE, 2 * PAGE, 3), 0);
    k.advance_clock(9_000_042);
    // eight bytes land in the first page, eight in the second
    let ts = MAP_BASE + PAGE - 8;
    assert_eq!(k.sys_get_time(ts, 0), 0);
    let b = k.read_user_bytes(ts, 16);
    assert_eq!(decode_u64(&b, 0), 9);
    assert_eq!(decode_u64(&b, 8), 42);
}

#[test]
fn task_info_record_straddles_page_boundary() {
    let mut k = booted(100);
    assert_eq!(k.sys_mmap(MAP_BASE, 2 * PAGE, 3), 0);
    k.count_syscall(64);
    k.count_syscall(64);
    k.count_syscall(169);
    k.advance_clock(2_000_000);
    // the record is 2009 bytes; start it 1005 bytes before the boundary
    let ti = MAP_BASE + PAGE - 1005;
    assert_eq!(k.sys_task_info(ti), 0);
    let b = k.read_user_bytes(ti, 2009);
    assert_eq!(b[0], 1, "status byte says Running");
    assert_eq!(decode_u32(&b, 1 + 4 * 64), 2);
    assert_eq!(decode_u32(&b, 1 + 4 * 169), 1);
    assert_eq!(decode_u32(&b, 1 + 4 * 100), 0);
    assert_eq!(decode_u64(&b, 1 + 4 * 500), 2000, "running time in ms");
}

#[test]
fn sbrk_grow_shrink_and_floor() {
    let mut k = booted(100);
    // a 100-byte image rounds up to one page: the break starts at 4096
    assert_eq!(k.sys_sbrk(0), 4096);
    assert_eq!(k.sys_sbrk(4096), 4096);
    assert_eq!(k.sys_sbrk(0), 8192);
    // shrinking below the heap floor fails and changes nothing
    assert_eq!(k.sys_sbrk(-8192), -1);
    assert_eq!(k.sys_sbrk(0), 8192);
    assert_eq!(k.sys_sbrk(-4096), 8192);
    assert_eq!(k.sys_sbrk(0), 4096);
}

#[test]
fn sbrk_cannot_grow_into_mapping() {
    let mut k = booted(100);
    assert_eq!(k.sys_mmap(2 * PAGE, PAGE, 3), 0);
    assert_eq!(k.sys_sbrk(4096), 4096);
    // the next page is mmapped: growing into it fails
    assert_eq!(k.sys_sbrk(100), -1);
    assert_eq!(k.sys_sbrk(0), 8192);
}

#[test]
fn exec_replaces_image_and_keeps_identity() {
    let mut k = booted(100);
    k.count_syscall(11);
    let image2 = vec![9u8; 5000];
    assert_eq!(k.sys_exec(&image2), 0);
    assert_eq!(k.sys_getpid(), 0);
    // accounting counters survive an exec
    let counts = k.get_syscall_times();
    assert_eq!(counts[11], 1);
    // the break moved to the new image's end, rounded up
    assert_eq!(k.sys_sbrk(0), 8192);
    // image bytes are in place, zero-padded past the end
    let b = k.read_user_bytes(4996, 8);
    assert_eq!(&b[..4], &[9, 9, 9, 9]);
    assert_eq!(&b[4..], &[0, 0, 0, 0]);
}

#[test]
fn fork_child_state() {
    let mut k = booted(100);
    assert_eq!(k.sys_set_priority(5), 5);
    let child = k.sys_fork() as usize;
    let tcb = k.tasks.iter().find(|t| t.pid == child).unwrap();
    assert_eq!(tcb.status, TaskStatus::Ready);
    assert_eq!(tcb.parent, Some(0));
    assert_eq!(tcb.priority, 5);
    assert_eq!(tcb.stride, 0);
    // the child observes 0 as the fork's return value
    assert_eq!(tcb.trap_ctx[10], 0);
    // the child's heap bounds copy the parent's
    assert_eq!(tcb.program_brk, 4096);
}

#[test]
fn spawn_creates_fresh_child() {
    let mut k = booted(100);
    let image2 = vec![3u8; 200];
    let child = k.sys_spawn(&image2);
    assert_eq!(child, 1);
    let tcb = k.tasks.iter().find(|t| t.pid == 1).unwrap();
    assert_eq!(tcb.status, TaskStatus::Ready);
    assert_eq!(tcb.parent, Some(0));
    assert_eq!(tcb.priority, 16, "spawn uses the default priority");
    assert!(tcb.trap_ctx.iter().all(|&r| r == 0));
    // the spawned child runs once the parent yields
    k.sys_yield();
    assert_eq!(k.dispatch_next(), Some(1));
    assert_eq!(k.sys_getpid(), 1);
}

#[test]
fn yield_requeues_at_tail() {
    let mut k = Kernel::new();
    let image = vec![0u8; 64];
    let first = k.spawn_initial(&image);
    let second = k.spawn_initial(&image);
    assert_eq!(k.dispatch_next(), Some(first));
    // equal strides again after the yield: queue order decides
    assert_eq!(k.sys_yield(), 0);
    assert_eq!(k.dispatch_next(), Some(second));
}

#[test]
fn run_time_counts_from_first_dispatch() {
    let mut k = Kernel::new();
    let image = vec![0u8; 64];
    k.spawn_initial(&image);
    k.advance_clock(5_000);
    assert_eq!(k.dispatch_next(), Some(0));
    k.advance_clock(12_000);
    assert_eq!(k.get_current_task_run_time(), 12);
}

#[test]
fn mmap_without_current_task_fails() {
    let mut k = Kernel::new();
    assert_eq!(k.sys_mmap(MAP_BASE, PAGE, 3), -1);
    assert_eq!(k.sys_munmap(MAP_BASE, PAGE), -1);
}

#[test]
fn accounting_without_current_task_is_inert() {
    let mut k = Kernel::new();
    k.count_syscall(64);
    let counts = k.get_syscall_times();
    assert!(counts.iter().all(|&c| c == 0));
    assert_eq!(k.get_current_task_run_time(), 0);
    assert_eq!(k.current_task(), None);
}
