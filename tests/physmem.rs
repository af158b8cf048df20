use foobos::physmem::{le_at, PhysAddr, PhysMemory, PhysSlice};

fn image() -> PhysMemory {
    let bytes: Vec<u8> = (0u8..32).collect();
    PhysMemory::new(PhysAddr(0x1000), bytes).unwrap()
}

#[test]
fn cursor_consume_then_discard_accounts_exactly() {
    let mem = image();
    let mut slice = PhysSlice::new(PhysAddr(0x1000), 16);
    assert_eq!(slice.len(), 16);
    assert_eq!(slice.consume_le(&mem, 4), Ok(0x03020100));
    assert_eq!(slice.len(), 12);
    assert_eq!(slice.discard(5), Ok(()));
    assert_eq!(slice.len(), 16 - 4 - 5);
    assert_eq!(slice.consume(&mem, 2), Ok(vec![9, 10]));
    assert_eq!(slice.len(), 5);
}

#[test]
fn cursor_never_over_consumes() {
    let mem = image();
    let mut slice = PhysSlice::new(PhysAddr(0x1000), 3);
    assert_eq!(slice.consume_le(&mem, 4), Err(()));
    assert_eq!(slice.len(), 3);
    assert_eq!(slice.consume(&mem, 4), Err(()));
    assert_eq!(slice.discard(4), Err(()));
    assert_eq!(slice.len(), 3);
    assert_eq!(slice.consume(&mem, 3), Ok(vec![0, 1, 2]));
    assert_eq!(slice.len(), 0);
    assert_eq!(slice.consume_le(&mem, 1), Err(()));
}

#[test]
fn cursor_past_image_end_fails() {
    let mem = image();
    let mut slice = PhysSlice::new(PhysAddr(0x101e), 8);
    assert_eq!(slice.consume(&mem, 4), Err(()));
    assert_eq!(slice.len(), 8);
    assert_eq!(slice.consume(&mem, 2), Ok(vec![30, 31]));
}

#[test]
fn memory_reads_little_endian() {
    let mem = image();
    assert_eq!(mem.read_le(PhysAddr(0x1001), 2), Some(0x0201));
    assert_eq!(mem.read_le(PhysAddr(0x1018), 8), Some(0x1f1e1d1c1b1a1918));
    assert_eq!(mem.read_le(PhysAddr(0x0fff), 1), None);
    assert_eq!(mem.read_bytes(PhysAddr(0x101f), 2), None);
    assert!(mem.is_mapped(0x1000, 32));
    assert!(!mem.is_mapped(0x1000, 33));
}

#[test]
fn memory_write_then_read() {
    let mut mem = image();
    assert_eq!(mem.write_le(PhysAddr(0x1004), 4, 0x1122334455), Ok(()));
    assert_eq!(mem.read_bytes(PhysAddr(0x1003), 6), Some(vec![3, 0x55, 0x44, 0x33, 0x22, 8]));
    assert_eq!(mem.write_le(PhysAddr(0x101e), 4, 0), Err(()));
}

#[test]
fn memory_image_must_end_below_top() {
    assert!(PhysMemory::new(PhysAddr(u64::MAX - 4), vec![0; 4]).is_some());
    assert!(PhysMemory::new(PhysAddr(u64::MAX - 4), vec![0; 5]).is_none());
}

#[test]
fn le_at_reads_values() {
    let b = [0x78u8, 0x56, 0x34, 0x12];
    assert_eq!(le_at(&b, 0, 4), 0x12345678);
    assert_eq!(le_at(&b, 1, 2), 0x3456);
    assert_eq!(le_at(&b, 2, 0), 0);
}
