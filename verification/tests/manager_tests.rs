use os_core::manager::{add_task, fetch_task, TaskManager};
use os_core::task::TaskControlBlock;
use os_core::BIG_STRIDE;

fn task(pid: usize, prio: usize, stride: usize) -> TaskControlBlock {
    let mut t = TaskControlBlock::new(pid, None);
    t.prio = prio;
    t.pass = BIG_STRIDE / prio;
    t.stride = stride;
    t
}

#[test]
fn fetch_on_empty_queue_is_none_and_idempotent() {
    let mut m = TaskManager::new();
    assert!(m.fetch().is_none());
    assert!(m.fetch().is_none());
    m.add(task(1, 16, 0));
    assert!(m.fetch().is_some());
    assert!(m.fetch().is_none());
}

#[test]
fn fetch_selects_minimum_stride() {
    let mut m = TaskManager::new();
    m.add(task(1, 16, 30));
    m.add(task(2, 16, 10));
    m.add(task(3, 16, 20));
    let t = m.fetch().unwrap();
    assert_eq!(t.pid, 2);
}

#[test]
fn fetch_tie_goes_to_strictly_greater_priority() {
    let mut m = TaskManager::new();
    m.add(task(1, 4, 50));
    m.add(task(2, 9, 50));
    m.add(task(3, 9, 50));
    // pid 2 displaces pid 1 on the tie; pid 3 does not displace pid 2
    let t = m.fetch().unwrap();
    assert_eq!(t.pid, 2);
}

#[test]
fn fetch_advances_stride_by_pass() {
    let mut m = TaskManager::new();
    m.add(task(7, 8, 100));
    let t = m.fetch().unwrap();
    assert_eq!(t.stride, 100 + BIG_STRIDE / 8);
    assert_eq!(t.pass, BIG_STRIDE / 8);
}

#[test]
fn stride_overflow_saturates_at_maximum() {
    let mut m = TaskManager::new();
    m.add(task(7, 2, usize::MAX - 5));
    let t = m.fetch().unwrap();
    assert_eq!(t.stride, usize::MAX);
}

#[test]
fn free_functions_match_the_methods() {
    let mut m = TaskManager::new();
    assert!(fetch_task(&mut m).is_none());
    add_task(&mut m, task(4, 16, 3));
    let t = fetch_task(&mut m).unwrap();
    assert_eq!(t.pid, 4);
}

#[test]
fn higher_priority_is_selected_proportionally_more_often() {
    // priorities 2 and 4 from equal initial stride: over any window the
    // priority-4 task is picked twice for each pick of the priority-2 task
    let mut m = TaskManager::new();
    m.add(task(1, 2, 0));
    m.add(task(2, 4, 0));
    let mut picks_low = 0u32;
    let mut picks_high = 0u32;
    for _ in 0..12 {
        let t = m.fetch().unwrap();
        if t.pid == 1 {
            picks_low += 1;
        } else {
            picks_high += 1;
        }
        m.add(t);
    }
    assert_eq!(picks_low, 4);
    assert_eq!(picks_high, 8);
    assert!(picks_high > picks_low);
    assert_eq!(picks_high, 2 * picks_low);
}
