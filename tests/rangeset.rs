use foobos::rangeset::{Error, Range, RangeSet, MAX_RANGES};

fn r(start: u64, end: u64) -> Range {
    Range { start, end }
}

fn sorted(set: &RangeSet) -> Vec<(u64, u64)> {
    let mut v: Vec<(u64, u64)> = set.entries().iter().map(|x| (x.start, x.end)).collect();
    v.sort();
    v
}

#[test]
fn insert_same_range_twice_equals_once() {
    let mut once = RangeSet::new();
    once.insert(r(100, 199)).unwrap();
    once.insert(r(500, 599)).unwrap();
    let mut twice = RangeSet::new();
    twice.insert(r(100, 199)).unwrap();
    twice.insert(r(500, 599)).unwrap();
    twice.insert(r(100, 199)).unwrap();
    assert_eq!(sorted(&once), sorted(&twice));
    assert_eq!(sorted(&twice), vec![(100, 199), (500, 599)]);
}

#[test]
fn insert_touching_ranges_merges() {
    let mut set = RangeSet::new();
    set.insert(r(0, 9)).unwrap();
    set.insert(r(10, 19)).unwrap();
    assert_eq!(sorted(&set), vec![(0, 19)]);
}

#[test]
fn insert_bridging_range_merges_three() {
    let mut set = RangeSet::new();
    set.insert(r(0, 9)).unwrap();
    set.insert(r(20, 29)).unwrap();
    set.insert(r(40, 49)).unwrap();
    set.insert(r(10, 19)).unwrap();
    assert_eq!(sorted(&set), vec![(0, 29), (40, 49)]);
    set.insert(r(5, 45)).unwrap();
    assert_eq!(sorted(&set), vec![(0, 49)]);
}

#[test]
fn insert_at_top_of_address_space() {
    let mut set = RangeSet::new();
    set.insert(r(u64::MAX - 9, u64::MAX)).unwrap();
    set.insert(r(u64::MAX - 19, u64::MAX - 10)).unwrap();
    assert_eq!(sorted(&set), vec![(u64::MAX - 19, u64::MAX)]);
}

#[test]
fn insert_gapped_ranges_stay_apart() {
    let mut set = RangeSet::new();
    set.insert(r(0, 9)).unwrap();
    set.insert(r(11, 19)).unwrap();
    assert_eq!(sorted(&set), vec![(0, 9), (11, 19)]);
}

#[test]
fn insert_inverted_range_is_rejected() {
    let mut set = RangeSet::new();
    assert_eq!(set.insert(r(10, 9)), Err(Error::InvalidRange));
    assert!(set.entries().is_empty());
}

#[test]
fn insert_into_full_set_runs_out_of_entries() {
    let mut set = RangeSet::new();
    for i in 0..MAX_RANGES as u64 {
        set.insert(r(i * 10, i * 10 + 4)).unwrap();
    }
    assert_eq!(set.entries().len(), MAX_RANGES);
    assert_eq!(set.insert(r(100_000, 100_004)), Err(Error::OutOfEntries));
    assert_eq!(set.entries().len(), MAX_RANGES);
    // A range that merges still goes in
    set.insert(r(5, 5)).unwrap();
    assert_eq!(set.entries().len(), MAX_RANGES);
}

#[test]
fn remove_then_insert_restores_set() {
    let mut set = RangeSet::new();
    set.insert(r(0, 99)).unwrap();
    set.remove(r(20, 29)).unwrap();
    assert_eq!(sorted(&set), vec![(0, 19), (30, 99)]);
    set.insert(r(20, 29)).unwrap();
    assert_eq!(sorted(&set), vec![(0, 99)]);
}

#[test]
fn remove_trims_and_deletes() {
    let mut set = RangeSet::new();
    set.insert(r(0, 9)).unwrap();
    set.insert(r(20, 29)).unwrap();
    set.insert(r(40, 49)).unwrap();
    set.remove(r(5, 45)).unwrap();
    assert_eq!(sorted(&set), vec![(0, 4), (46, 49)]);
    set.remove(r(0, 100)).unwrap();
    assert!(set.entries().is_empty());
}

#[test]
fn remove_inverted_range_is_rejected() {
    let mut set = RangeSet::new();
    set.insert(r(0, 9)).unwrap();
    assert_eq!(set.remove(r(5, 4)), Err(Error::InvalidRange));
    assert_eq!(sorted(&set), vec![(0, 9)]);
}

#[test]
fn remove_split_in_full_set_fails_unchanged() {
    let mut set = RangeSet::new();
    for i in 0..MAX_RANGES as u64 {
        set.insert(r(i * 10, i * 10 + 4)).unwrap();
    }
    let before = sorted(&set);
    assert_eq!(set.remove(r(1, 2)), Err(Error::OutOfEntries));
    assert_eq!(sorted(&set), before);
    // Trimming an edge needs no new entry
    set.remove(r(0, 1)).unwrap();
    assert_eq!(sorted(&set)[0], (2, 4));
}

#[test]
fn sum_counts_points() {
    let mut set = RangeSet::new();
    assert_eq!(set.sum(), Some(0));
    set.insert(r(0, 4095)).unwrap();
    set.insert(r(8192, 8192)).unwrap();
    assert_eq!(set.sum(), Some(4097));
}

#[test]
fn sum_overflow_is_none() {
    let mut set = RangeSet::new();
    set.insert(r(0, u64::MAX)).unwrap();
    assert_eq!(set.sum(), None);
    let mut set = RangeSet::new();
    set.insert(r(1, u64::MAX)).unwrap();
    assert_eq!(set.sum(), Some(u64::MAX));
}

#[test]
fn allocate_aligned_from_single_range() {
    let mut set = RangeSet::new();
    set.insert(r(0, 4095)).unwrap();
    let addr = set.allocate(16, 16).unwrap();
    assert_eq!(addr % 16, 0);
    assert_eq!(addr, 0);
    assert_eq!(sorted(&set), vec![(16, 4095)]);
    assert_eq!(set.sum(), Some(4096 - 16));
}

#[test]
fn allocate_from_empty_set_is_out_of_memory() {
    let mut set = RangeSet::new();
    assert_eq!(set.allocate(1, 1), Err(Error::OutOfMemory));
}

#[test]
fn allocate_rejects_bad_requests() {
    let mut set = RangeSet::new();
    set.insert(r(0, 4095)).unwrap();
    assert_eq!(set.allocate(0, 16), Err(Error::ZeroSizeAllocation));
    assert_eq!(set.allocate(16, 0), Err(Error::InvalidAlignment));
    assert_eq!(set.allocate(16, 24), Err(Error::InvalidAlignment));
    assert_eq!(set.allocate(4097, 1), Err(Error::OutOfMemory));
    assert_eq!(sorted(&set), vec![(0, 4095)]);
}

#[test]
fn allocate_takes_least_padding_and_drops_it() {
    let mut set = RangeSet::new();
    set.insert(r(1, 100)).unwrap();
    set.insert(r(200, 300)).unwrap();
    set.insert(r(512, 600)).unwrap();
    // 512 needs no padding for an alignment of 256
    assert_eq!(set.allocate(16, 256), Ok(512));
    assert_eq!(sorted(&set), vec![(1, 100), (200, 300), (528, 600)]);
    // 528 needs 48 bytes of padding to reach 576, fewer than 1 (63) or 200
    // (56); the padding is taken too
    assert_eq!(set.allocate(8, 64), Ok(576));
    assert_eq!(sorted(&set), vec![(1, 100), (200, 300), (584, 600)]);
}

#[test]
fn allocate_prefer_first_preferred_fit_wins() {
    let mut set = RangeSet::new();
    set.insert(r(0, 0xffff)).unwrap();
    let mut prefer = RangeSet::new();
    prefer.insert(r(0x8001, 0x8fff)).unwrap();
    // Inside the preferred region, rounded up to the alignment
    assert_eq!(set.allocate_prefer(0x100, 0x100, Some(&prefer)), Ok(0x8100));
    assert_eq!(sorted(&set), vec![(0, 0x80ff), (0x8200, 0xffff)]);
}

#[test]
fn allocate_prefer_falls_back_to_best_fit() {
    let mut set = RangeSet::new();
    set.insert(r(0x1000, 0x1fff)).unwrap();
    let mut prefer = RangeSet::new();
    prefer.insert(r(0x10000, 0x20000)).unwrap();
    assert_eq!(set.allocate_prefer(0x10, 0x10, Some(&prefer)), Ok(0x1000));
    assert_eq!(sorted(&set), vec![(0x1010, 0x1fff)]);
}

#[test]
fn allocate_prefer_split_in_full_set_runs_out_of_entries() {
    let mut set = RangeSet::new();
    for i in 0..MAX_RANGES as u64 {
        set.insert(r(i * 0x1000, i * 0x1000 + 0xfff - 1)).unwrap();
    }
    let mut prefer = RangeSet::new();
    prefer.insert(r(0x100, 0x1ff)).unwrap();
    let before = sorted(&set);
    assert_eq!(set.allocate_prefer(0x10, 0x10, Some(&prefer)), Err(Error::OutOfEntries));
    assert_eq!(sorted(&set), before);
}
