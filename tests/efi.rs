use foobos::efi::{
    console_buffers, get_acpi_table, parse_memory_map, usable_memory, EfiConfigurationTable, EfiError, EfiGuid,
    EfiMemoryDescriptor, EfiMemoryType, EfiStatus, EfiStatusCode, EfiWarning, Error,
};
use foobos::rangeset;

fn desc(typ: u32, start: u64, pages: u64) -> EfiMemoryDescriptor {
    EfiMemoryDescriptor { typ, physical_start: start, virtual_start: 0, number_of_pages: pages, attribute: 0 }
}

fn sorted(set: &rangeset::RangeSet) -> Vec<(u64, u64)> {
    let mut v: Vec<(u64, u64)> = set.entries().iter().map(|x| (x.start, x.end)).collect();
    v.sort();
    v
}

#[test]
fn status_codes_decode() {
    assert_eq!(EfiStatus::from(EfiStatusCode(0)), EfiStatus::Success);
    assert_eq!(EfiStatus::from(EfiStatusCode(4)), EfiStatus::Warning(EfiWarning::BufferTooSmall));
    assert_eq!(EfiStatus::from(EfiStatusCode(9)), EfiStatus::Warning(EfiWarning::Unknown(9)));
    assert_eq!(
        EfiStatus::from(EfiStatusCode(0x8000_0000_0000_0005)),
        EfiStatus::Error(EfiError::BufferTooSmall)
    );
    assert_eq!(EfiStatus::from(EfiStatusCode(0x8000_0000_0000_000e)), EfiStatus::Error(EfiError::NotFound));
    assert_eq!(
        EfiStatus::from(EfiStatusCode(0x8000_0000_0000_001d)),
        EfiStatus::Error(EfiError::Unknown(0x8000_0000_0000_001d))
    );
}

#[test]
fn memory_types_decode() {
    assert_eq!(EfiMemoryType::from(7), EfiMemoryType::ConventionalMemory);
    assert_eq!(EfiMemoryType::from(99), EfiMemoryType::Invalid);
    assert!(EfiMemoryType::from(3).avail_post_exit_boot_services());
    assert!(EfiMemoryType::from(4).avail_post_exit_boot_services());
    assert!(EfiMemoryType::from(7).avail_post_exit_boot_services());
    assert!(EfiMemoryType::from(14).avail_post_exit_boot_services());
    assert!(!EfiMemoryType::from(1).avail_post_exit_boot_services());
    assert!(!EfiMemoryType::from(9).avail_post_exit_boot_services());
}

#[test]
fn memory_map_bytes_parse() {
    let mut map = vec![0u8; 48 * 2 + 10];
    map[0] = 7;
    map[8..16].copy_from_slice(&0x10_0000u64.to_le_bytes());
    map[24..32].copy_from_slice(&16u64.to_le_bytes());
    map[48] = 3;
    map[56..64].copy_from_slice(&0x20_0000u64.to_le_bytes());
    map[72..80].copy_from_slice(&2u64.to_le_bytes());
    let ds = parse_memory_map(&map, 48);
    assert_eq!(ds, vec![desc(7, 0x10_0000, 16), desc(3, 0x20_0000, 2)]);
    assert!(parse_memory_map(&map[..39], 40).is_empty());
}

#[test]
fn usable_memory_from_descriptors() {
    let ds = vec![
        desc(7, 0x1000, 2),
        desc(0, 0x3000, 1),
        desc(4, 0x3000, 1),
        desc(3, 0x10000, 0),
        desc(14, 0x8000, 1),
    ];
    let set = usable_memory(&ds).unwrap();
    assert_eq!(sorted(&set), vec![(0x1000, 0x3fff), (0x8000, 0x8fff)]);
    assert_eq!(set.sum(), Some(0x4000));
}

#[test]
fn usable_memory_overflow() {
    let ds = vec![desc(7, u64::MAX - 0xfff, 2)];
    assert_eq!(usable_memory(&ds).err(), Some(Error::MemoryMapIntegerOverflow));
    let ds = vec![desc(7, 0, u64::MAX / 2)];
    assert_eq!(usable_memory(&ds).err(), Some(Error::MemoryMapIntegerOverflow));
    // Regions of other types are not examined
    let ds = vec![desc(0, u64::MAX - 0xfff, 2)];
    assert!(usable_memory(&ds).unwrap().entries().is_empty());
}

#[test]
fn usable_memory_too_many_regions() {
    let ds: Vec<EfiMemoryDescriptor> = (0..257u64).map(|i| desc(7, i * 0x2000, 1)).collect();
    assert_eq!(usable_memory(&ds).err(), Some(Error::MemoryRangeSet(rangeset::Error::OutOfEntries)));
}

fn acpi20() -> EfiGuid {
    EfiGuid(0x8868e871, 0xe4f1, 0x11d3, [0xbc, 0x22, 0x00, 0x80, 0xc7, 0x3c, 0x88, 0x81])
}

fn acpi10() -> EfiGuid {
    EfiGuid(0xeb9d2d30, 0x2d88, 0x11d3, [0x9a, 0x16, 0x00, 0x90, 0x27, 0x3f, 0xc1, 0x4d])
}

#[test]
fn acpi_root_lookup_prefers_newer_tables() {
    let other = EfiGuid(1, 2, 3, [0; 8]);
    let tables = vec![
        EfiConfigurationTable { guid: other, table: 0x10 },
        EfiConfigurationTable { guid: acpi10(), table: 0x20 },
        EfiConfigurationTable { guid: acpi20(), table: 0x30 },
        EfiConfigurationTable { guid: acpi20(), table: 0x40 },
    ];
    assert_eq!(get_acpi_table(&tables), Some(0x30));
    assert_eq!(get_acpi_table(&tables[..2]), Some(0x20));
    assert_eq!(get_acpi_table(&tables[..1]), None);
    let mut near = acpi20();
    near.3[7] = 0;
    assert_eq!(get_acpi_table(&[EfiConfigurationTable { guid: near, table: 0x50 }]), None);
}

#[test]
fn console_buffers_split_and_terminate() {
    let text: Vec<u16> = "a\nb".encode_utf16().collect();
    assert_eq!(console_buffers(&text), vec![vec![0x61, 0x0d, 0x0a, 0x62, 0]]);

    let long: Vec<u16> = vec![0x78; 40];
    let bufs = console_buffers(&long);
    assert_eq!(bufs.len(), 2);
    assert_eq!(bufs[0].len(), 31);
    assert_eq!(bufs[1].len(), 11);
    assert_eq!(*bufs[1].last().unwrap(), 0);

    let mut edge: Vec<u16> = vec![0x78; 29];
    edge.push(0x0a);
    let bufs = console_buffers(&edge);
    assert_eq!(bufs.len(), 1);
    assert_eq!(bufs[0].len(), 32);
    assert_eq!(&bufs[0][29..], &[0x0d, 0x0a, 0]);

    assert!(console_buffers(&[]).is_empty());
}

#[test]
fn usable_memory_many_adjacent_regions_merge() {
    let ds: Vec<EfiMemoryDescriptor> = (0..300u64).map(|i| desc(7, i * 0x1000, 1)).collect();
    let set = usable_memory(&ds).unwrap();
    assert_eq!(sorted(&set), vec![(0, 300 * 0x1000 - 1)]);
}

#[test]
fn usable_memory_first_problem_decides() {
    let mut ds: Vec<EfiMemoryDescriptor> = (0..257u64).map(|i| desc(7, i * 0x2000, 1)).collect();
    ds.push(desc(7, u64::MAX - 0xfff, 2));
    assert_eq!(usable_memory(&ds).err(), Some(Error::MemoryRangeSet(rangeset::Error::OutOfEntries)));
    let mut ds = vec![desc(7, u64::MAX - 0xfff, 2)];
    ds.extend((0..257u64).map(|i| desc(7, i * 0x2000, 1)));
    assert_eq!(usable_memory(&ds).err(), Some(Error::MemoryMapIntegerOverflow));
}
