use os_core::mm::{AddressSpace, FrameAlloc, MapPermission};
use os_core::PAGE_SIZE;

fn fresh() -> (AddressSpace, FrameAlloc) {
    (AddressSpace::new(0x1_0000), FrameAlloc::new())
}

const BASE: usize = 0x1000_0000;

#[test]
fn translate_empty_space_is_none() {
    let (s, _) = fresh();
    assert!(s.translate(BASE / PAGE_SIZE).is_none());
    assert_eq!(s.area_count(), 0);
}

#[test]
fn mmap_maps_every_page_with_requested_permissions() {
    let (mut s, mut fa) = fresh();
    assert_eq!(s.mmap(&mut fa, BASE, 2 * PAGE_SIZE, 3), 0);
    let vpn = BASE / PAGE_SIZE;
    for k in 0..2 {
        let pte = s.translate(vpn + k).expect("page must be mapped");
        assert!(pte.perm.readable);
        assert!(pte.perm.writable);
        assert!(!pte.perm.executable);
        assert!(pte.perm.user);
    }
    assert!(s.translate(vpn + 2).is_none());
    assert_eq!(s.area_count(), 1);
    let a = s.area_at(0);
    assert_eq!(a.start_vpn, vpn);
    assert_eq!(a.end_vpn, vpn + 2);
}

#[test]
fn mmap_rounds_partial_page_up() {
    let (mut s, mut fa) = fresh();
    assert_eq!(s.mmap(&mut fa, BASE, PAGE_SIZE + 1, 1), 0);
    let vpn = BASE / PAGE_SIZE;
    assert!(s.translate(vpn).is_some());
    assert!(s.translate(vpn + 1).is_some());
    assert!(s.translate(vpn + 2).is_none());
}

#[test]
fn mmap_bad_port_high_bit_fails_and_changes_nothing() {
    let (mut s, mut fa) = fresh();
    for port in [8usize, 9, 16, 0x17, 0x100] {
        assert_eq!(s.mmap(&mut fa, BASE, PAGE_SIZE, port), -1);
    }
    assert_eq!(s.mmap(&mut fa, BASE, PAGE_SIZE, 0), -1);
    assert!(s.translate(BASE / PAGE_SIZE).is_none());
    assert_eq!(s.area_count(), 0);
}

#[test]
fn mmap_misaligned_start_fails() {
    let (mut s, mut fa) = fresh();
    assert_eq!(s.mmap(&mut fa, BASE + 1, PAGE_SIZE, 3), -1);
    assert_eq!(s.area_count(), 0);
}

#[test]
fn mmap_zero_length_with_valid_port_is_trivial_success() {
    let (mut s, mut fa) = fresh();
    assert_eq!(s.mmap(&mut fa, BASE, 0, 7), 0);
    assert!(s.translate(BASE / PAGE_SIZE).is_none());
    assert_eq!(s.area_count(), 0);
}

#[test]
fn mmap_overlap_fails_and_leaves_space_unchanged() {
    let (mut s, mut fa) = fresh();
    assert_eq!(s.mmap(&mut fa, BASE, 3 * PAGE_SIZE, 3), 0);
    let before: Vec<_> = (0..4).map(|k| s.translate(BASE / PAGE_SIZE + k)).collect();
    // overlaps the last page of the first mapping
    assert_eq!(s.mmap(&mut fa, BASE + 2 * PAGE_SIZE, 2 * PAGE_SIZE, 1), -1);
    let after: Vec<_> = (0..4).map(|k| s.translate(BASE / PAGE_SIZE + k)).collect();
    assert_eq!(before, after);
    assert_eq!(s.area_count(), 1);
}

#[test]
fn mmap_munmap_round_trip_restores_mapping_state() {
    let (mut s, mut fa) = fresh();
    assert_eq!(s.mmap(&mut fa, BASE, 2 * PAGE_SIZE, 7), 0);
    assert_eq!(s.munmap(BASE, 2 * PAGE_SIZE), 0);
    assert!(s.translate(BASE / PAGE_SIZE).is_none());
    assert!(s.translate(BASE / PAGE_SIZE + 1).is_none());
    assert_eq!(s.area_count(), 0);
    // the range can be mapped again
    assert_eq!(s.mmap(&mut fa, BASE, 2 * PAGE_SIZE, 7), 0);
}

#[test]
fn munmap_unmapped_page_fails_without_change() {
    let (mut s, mut fa) = fresh();
    assert_eq!(s.mmap(&mut fa, BASE, PAGE_SIZE, 3), 0);
    // second page of the requested range is not mapped
    assert_eq!(s.munmap(BASE, 2 * PAGE_SIZE), -1);
    assert!(s.translate(BASE / PAGE_SIZE).is_some());
    assert_eq!(s.area_count(), 1);
}

#[test]
fn munmap_misaligned_fails() {
    let (mut s, _) = fresh();
    assert_eq!(s.munmap(BASE + 7, PAGE_SIZE), -1);
}

#[test]
fn munmap_splits_a_partially_unmapped_area() {
    let (mut s, mut fa) = fresh();
    assert_eq!(s.mmap(&mut fa, BASE, 3 * PAGE_SIZE, 3), 0);
    // take out the middle page only
    assert_eq!(s.munmap(BASE + PAGE_SIZE, PAGE_SIZE), 0);
    let vpn = BASE / PAGE_SIZE;
    assert!(s.translate(vpn).is_some());
    assert!(s.translate(vpn + 1).is_none());
    assert!(s.translate(vpn + 2).is_some());
    assert_eq!(s.area_count(), 2);
    let left = s.area_at(0);
    let right = s.area_at(1);
    assert_eq!((left.start_vpn, left.end_vpn), (vpn, vpn + 1));
    assert_eq!((right.start_vpn, right.end_vpn), (vpn + 2, vpn + 3));
}

#[test]
fn insert_and_shrink_area_directly() {
    let (mut s, mut fa) = fresh();
    s.insert_area(BASE, BASE + 2 * PAGE_SIZE, MapPermission {
        readable: true,
        writable: false,
        executable: true,
        user: true,
    }, &mut fa);
    let pte = s.translate(BASE / PAGE_SIZE).unwrap();
    assert!(pte.perm.executable && !pte.perm.writable);
    s.shrink_area(BASE, BASE + 2 * PAGE_SIZE);
    assert!(s.translate(BASE / PAGE_SIZE).is_none());
    assert_eq!(s.area_count(), 0);
}

#[test]
fn sbrk_round_trip_restores_break() {
    let (mut s, _) = fresh();
    let base = s.base_value();
    assert_eq!(s.change_program_brk(4096), Some(base));
    assert_eq!(s.brk_value(), base + 4096);
    assert_eq!(s.change_program_brk(-4096), Some(base + 4096));
    assert_eq!(s.brk_value(), base);
    assert_eq!(s.area_count(), 0);
}

#[test]
fn sbrk_accepts_the_full_signed_growth_range() {
    // the break is bounded only by the machine limit of the signed result
    // word, so the largest single growth a call can name succeeds
    let (mut s, _) = fresh();
    let base = s.base_value();
    assert_eq!(s.change_program_brk(i32::MAX), Some(base));
    assert_eq!(s.brk_value(), base + i32::MAX as usize);
    assert_eq!(s.change_program_brk(-i32::MAX), Some(base + i32::MAX as usize));
    assert_eq!(s.brk_value(), base);
}

#[test]
fn sbrk_below_base_fails_without_change() {
    let (mut s, _) = fresh();
    let base = s.base_value();
    assert_eq!(s.change_program_brk(-1), None);
    assert_eq!(s.brk_value(), base);
}

#[test]
fn clone_space_duplicates_mappings_and_heap() {
    let (mut s, mut fa) = fresh();
    assert_eq!(s.mmap(&mut fa, BASE, 2 * PAGE_SIZE, 5), 0);
    s.change_program_brk(8192).unwrap();
    let c = s.clone_space(&mut fa);
    let vpn = BASE / PAGE_SIZE;
    for k in 0..2 {
        let a = s.translate(vpn + k).unwrap();
        let b = c.translate(vpn + k).unwrap();
        assert_eq!(a.perm, b.perm);
    }
    assert!(c.translate(vpn + 2).is_none());
    assert_eq!(c.brk_value(), s.brk_value());
    assert_eq!(c.area_count(), s.area_count());
}
