use os_core::kernel::{
    current_sched, current_task_info, current_translate, read_phys_word, record_syscall,
    sys_exec, sys_exit, sys_fork, sys_get_time, sys_getpid, sys_mmap, sys_munmap, sys_sbrk,
    sys_set_priority, sys_spawn, sys_task_info, sys_waitpid, sys_yield, time_val_of_us, Kernel,
    TASK_INFO_TIME_OFFSET,
};
use os_core::task::TaskStatus;
use os_core::{BIG_STRIDE, PAGE_SIZE, USER_HEAP_BASE};

const VA: usize = 0x1000_0000;

fn booted() -> Kernel {
    let mut k = Kernel::new();
    k.boot();
    k
}

#[test]
fn boot_gives_pid_zero() {
    let k = booted();
    assert_eq!(sys_getpid(&k), 0);
}

#[test]
fn yield_with_single_task_reschedules_it() {
    let mut k = booted();
    assert_eq!(sys_yield(&mut k), 0);
    assert_eq!(sys_getpid(&k), 0);
}

#[test]
fn fork_returns_child_pid_and_waitpid_polls_then_reaps() {
    let mut k = booted();
    // the parent maps a page to receive the exit code
    assert_eq!(sys_mmap(&mut k, VA, PAGE_SIZE, 3), 0);
    let child = sys_fork(&mut k);
    assert_eq!(child, 1);
    // the child has not run: not a zombie yet
    assert_eq!(sys_waitpid(&mut k, -1, VA), -2);
    assert_eq!(sys_waitpid(&mut k, 1, VA), -2);
    // hand the processor to the child (equal priorities, it is first)
    assert_eq!(sys_yield(&mut k), 0);
    assert_eq!(sys_getpid(&k), 1);
    // the child exits with code 7 and the parent runs again
    sys_exit(&mut k, 7);
    assert_eq!(sys_getpid(&k), 0);
    let r = sys_waitpid(&mut k, -1, VA);
    assert_eq!(r, 1);
    let pa = current_translate(&k, VA).unwrap();
    assert_eq!(read_phys_word(&k, pa), Some(7));
    // the reaped child is gone
    assert_eq!(sys_waitpid(&mut k, -1, VA), -1);
}

#[test]
fn waitpid_without_children_is_minus_one() {
    let mut k = booted();
    assert_eq!(sys_waitpid(&mut k, -1, VA), -1);
    assert_eq!(sys_waitpid(&mut k, 5, VA), -1);
}

#[test]
fn waitpid_on_one_live_child_polls_then_sees_its_code() {
    let mut k = booted();
    assert_eq!(sys_mmap(&mut k, VA, PAGE_SIZE, 3), 0);
    let child = sys_fork(&mut k);
    assert_eq!(sys_waitpid(&mut k, -1, VA), -2);
    assert_eq!(sys_yield(&mut k), 0);
    // the child exits with code -3
    sys_exit(&mut k, -3);
    let r = sys_waitpid(&mut k, -1, VA);
    assert_eq!(r, child);
    let pa = current_translate(&k, VA).unwrap();
    assert_eq!(read_phys_word(&k, pa), Some(-3i32 as usize));
}

#[test]
fn waitpid_with_unrelated_pid_is_minus_one() {
    let mut k = booted();
    let _ = sys_fork(&mut k);
    assert_eq!(sys_waitpid(&mut k, 99, VA), -1);
}

#[test]
fn set_priority_below_two_is_rejected_and_changes_nothing() {
    let mut k = booted();
    let before = current_sched(&k);
    assert_eq!(sys_set_priority(&mut k, 1), -1);
    assert_eq!(sys_set_priority(&mut k, 0), -1);
    assert_eq!(sys_set_priority(&mut k, -7), -1);
    assert_eq!(current_sched(&k), before);
}

#[test]
fn set_priority_updates_pass() {
    let mut k = booted();
    assert_eq!(sys_set_priority(&mut k, 5), 5);
    let (prio, pass, _) = current_sched(&k);
    assert_eq!(prio, 5);
    assert_eq!(pass, BIG_STRIDE / 5);
}

#[test]
fn get_time_writes_seconds_and_microseconds() {
    let mut k = booted();
    assert_eq!(sys_mmap(&mut k, VA, PAGE_SIZE, 3), 0);
    k.advance_time(2_750_000);
    assert_eq!(sys_get_time(&mut k, VA, 0), 0);
    let pa1 = current_translate(&k, VA).unwrap();
    let pa2 = current_translate(&k, VA + 8).unwrap();
    assert_eq!(read_phys_word(&k, pa1), Some(2));
    assert_eq!(read_phys_word(&k, pa2), Some(750_000));
    let tv = time_val_of_us(2_750_000);
    assert_eq!((tv.sec, tv.usec), (2, 750_000));
}

#[test]
fn get_time_through_unmapped_pointer_kills_the_caller() {
    let mut k = booted();
    let child = sys_fork(&mut k);
    // the pointer's page is unmapped: fatal for the calling parent, and
    // the child is scheduled in its place
    assert_eq!(sys_get_time(&mut k, VA, 0), -1);
    assert_eq!(sys_getpid(&k), child);
    // the dead parent is a zombie holding the fault code; the child is
    // its child, so it cannot reap it, but the store can be observed by
    // noticing nothing else changed and the child still runs
    assert_eq!(sys_yield(&mut k), 0);
    assert_eq!(sys_getpid(&k), child);
}

#[test]
fn get_time_handles_a_page_straddling_record() {
    let mut k = booted();
    assert_eq!(sys_mmap(&mut k, VA, 2 * PAGE_SIZE, 3), 0);
    let va = VA + PAGE_SIZE - 8;
    k.advance_time(1_000_001);
    assert_eq!(sys_get_time(&mut k, va, 0), 0);
    let pa1 = current_translate(&k, va).unwrap();
    let pa2 = current_translate(&k, va + 8).unwrap();
    assert_eq!(read_phys_word(&k, pa1), Some(1));
    assert_eq!(read_phys_word(&k, pa2), Some(1));
}

#[test]
fn task_info_reports_status_counters_and_time() {
    let mut k = booted();
    assert_eq!(sys_mmap(&mut k, VA, PAGE_SIZE, 3), 0);
    record_syscall(&mut k, 124);
    record_syscall(&mut k, 124);
    record_syscall(&mut k, 169);
    k.advance_time(5_500);
    assert_eq!(sys_task_info(&mut k, VA), 0);
    let pa = current_translate(&k, VA).unwrap();
    // status tag: running
    assert_eq!(read_phys_word(&k, pa), Some(1));
    assert_eq!(read_phys_word(&k, pa + 8 + 4 * 124), Some(2));
    assert_eq!(read_phys_word(&k, pa + 8 + 4 * 169), Some(1));
    assert_eq!(read_phys_word(&k, pa + 8 + 4 * 10), Some(0));
    assert_eq!(read_phys_word(&k, pa + TASK_INFO_TIME_OFFSET), Some(5));
    let ti = current_task_info(&k);
    assert_eq!(ti.status, TaskStatus::Running);
    assert_eq!(ti.syscall_times[124], 2);
    assert_eq!(ti.time, 5);
}

#[test]
fn task_info_through_unmapped_pointer_kills_the_caller() {
    let mut k = booted();
    let child = sys_fork(&mut k);
    assert_eq!(sys_task_info(&mut k, VA), -1);
    assert_eq!(sys_getpid(&k), child);
}

#[test]
fn task_info_straddling_an_unmapped_second_page_is_fatal() {
    let mut k = booted();
    // only one page mapped: the record would run off its end
    assert_eq!(sys_mmap(&mut k, VA, PAGE_SIZE, 3), 0);
    let child = sys_fork(&mut k);
    let ti = VA + PAGE_SIZE - 16;
    assert_eq!(sys_task_info(&mut k, ti), -1);
    assert_eq!(sys_getpid(&k), child);
}

#[test]
fn task_info_record_straddling_two_pages_uses_both_mappings() {
    let mut k = booted();
    assert_eq!(sys_mmap(&mut k, VA, 2 * PAGE_SIZE, 3), 0);
    record_syscall(&mut k, 124);
    k.advance_time(3_000);
    let ti = VA + PAGE_SIZE - 16;
    assert_eq!(sys_task_info(&mut k, ti), 0);
    // status word on the first page
    let pa_status = current_translate(&k, ti).unwrap();
    assert_eq!(read_phys_word(&k, pa_status), Some(1));
    // a counter word on the second page, translated through that page
    let pa_c124 = current_translate(&k, ti + 8 + 4 * 124).unwrap();
    assert_eq!(read_phys_word(&k, pa_c124), Some(1));
    let pa_c0 = current_translate(&k, ti + 8).unwrap();
    assert_eq!(read_phys_word(&k, pa_c0), Some(0));
    // the elapsed-time word on the second page
    let pa_time = current_translate(&k, ti + TASK_INFO_TIME_OFFSET).unwrap();
    assert_eq!(read_phys_word(&k, pa_time), Some(3));
}

#[test]
fn waitpid_reap_with_unmapped_pointer_kills_the_caller() {
    let mut k = booted();
    let _ = sys_fork(&mut k);
    assert_eq!(sys_yield(&mut k), 0);
    // the child exits; back in the parent a zombie waits
    sys_exit(&mut k, 5);
    assert_eq!(sys_getpid(&k), 0);
    // the exit-code pointer is unmapped: the reap is fatal for the parent
    assert_eq!(sys_waitpid(&mut k, -1, VA), -1);
    // nobody is left to run
    assert!(!k.run_next());
}

#[test]
fn exec_replaces_the_image_only_when_it_exists() {
    let mut k = Kernel::new();
    k.register_image(b"init".to_vec());
    k.boot();
    assert_eq!(sys_mmap(&mut k, VA, PAGE_SIZE, 3), 0);
    assert_eq!(sys_exec(&mut k, &b"missing".to_vec()), -1);
    // the failed exec left the mapping alone
    assert!(current_translate(&k, VA).is_some());
    assert_eq!(sys_exec(&mut k, &b"init".to_vec()), 0);
    // the new image starts from a fresh address space
    assert!(current_translate(&k, VA).is_none());
    assert_eq!(sys_getpid(&k), 0);
}

#[test]
fn spawn_links_and_enqueues_a_fresh_child() {
    let mut k = Kernel::new();
    k.register_image(b"child_prog".to_vec());
    k.boot();
    assert_eq!(sys_spawn(&mut k, &b"nope".to_vec()), -1);
    let pid = sys_spawn(&mut k, &b"child_prog".to_vec());
    assert_eq!(pid, 1);
    assert_eq!(sys_mmap(&mut k, VA, PAGE_SIZE, 3), 0);
    // spawned child is live, not a zombie
    assert_eq!(sys_waitpid(&mut k, 1, VA), -2);
    assert_eq!(sys_yield(&mut k), 0);
    assert_eq!(sys_getpid(&k), 1);
    sys_exit(&mut k, 0);
    assert_eq!(sys_waitpid(&mut k, 1, VA), 1);
}

#[test]
fn sbrk_round_trip_restores_break_at_kernel_level() {
    let mut k = booted();
    let base = USER_HEAP_BASE as isize;
    assert_eq!(sys_sbrk(&mut k, 4096), base);
    assert_eq!(sys_sbrk(&mut k, -4096), base + 4096);
    assert_eq!(sys_sbrk(&mut k, 0), base);
    assert_eq!(sys_sbrk(&mut k, -1), -1);
}

#[test]
fn mmap_and_munmap_through_the_syscall_layer() {
    let mut k = booted();
    assert_eq!(sys_mmap(&mut k, VA, PAGE_SIZE, 8), -1);
    assert_eq!(sys_mmap(&mut k, VA, PAGE_SIZE, 0), -1);
    assert_eq!(sys_mmap(&mut k, VA + 1, PAGE_SIZE, 3), -1);
    assert_eq!(sys_mmap(&mut k, VA, PAGE_SIZE, 3), 0);
    assert_eq!(sys_mmap(&mut k, VA, PAGE_SIZE, 3), -1);
    assert_eq!(sys_munmap(&mut k, VA, 2 * PAGE_SIZE), -1);
    assert_eq!(sys_munmap(&mut k, VA, PAGE_SIZE), 0);
    assert_eq!(sys_munmap(&mut k, VA, PAGE_SIZE), -1);
}

#[test]
fn exit_makes_the_processor_idle_when_nothing_is_ready() {
    let mut k = booted();
    sys_exit(&mut k, 0);
    // no task left: booting a fresh task works again
    assert!(!k.run_next());
}

#[test]
fn stride_scheduling_prefers_the_higher_priority_task() {
    let mut k = booted();
    // parent keeps default priority; child gets a higher one
    let child = sys_fork(&mut k);
    assert_eq!(child, 1);
    assert_eq!(sys_yield(&mut k), 0);
    // the child (equal stride, equal priority, first in queue) runs now
    assert_eq!(sys_getpid(&k), 1);
    assert_eq!(sys_set_priority(&mut k, 32), 32);
    // over repeated yields the child, with the smaller pass, runs more often
    let mut child_runs = 0;
    for _ in 0..30 {
        assert_eq!(sys_yield(&mut k), 0);
        if sys_getpid(&k) == 1 {
            child_runs += 1;
        }
    }
    assert!(child_runs > 15);
}
