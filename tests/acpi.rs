use foobos::acpi::{init, Error, LocalApic, LocalX2Apic, Madt, Spcr, TableType};
use foobos::gas::{AccessSize, Gas, IoAddr};
use foobos::physmem::{PhysAddr, PhysMemory};
use foobos::serial::{BaudRate, Interface};

const BASE: u64 = 0x10_0000;
const XSDT: usize = 0x40;
const MADT: usize = 0x100;
const SPCR: usize = 0x200;

fn put(img: &mut [u8], off: usize, val: u64, n: usize) {
    for i in 0..n {
        img[off + i] = (val >> (8 * i)) as u8;
    }
}

fn fix_checksum(img: &mut [u8], start: usize, len: usize, at: usize) {
    img[at] = 0;
    let sum: u8 = img[start..start + len].iter().fold(0u8, |a, b| a.wrapping_add(*b));
    img[at] = 0u8.wrapping_sub(sum);
}

fn header(img: &mut [u8], off: usize, sig: &[u8; 4], len: usize) {
    img[off..off + 4].copy_from_slice(sig);
    put(img, off + 4, len as u64, 4);
    img[off + 8] = 1;
    img[off + 10..off + 16].copy_from_slice(b"FOOBOS");
}

/// A root pointer (revision 2), a table list with a MADT and an SPCR
fn image(madt_payload: &[u8], spcr_payload: &[u8]) -> Vec<u8> {
    let mut img = vec![0u8; 0x400];
    img[0..8].copy_from_slice(b"RSD PTR ");
    img[9..15].copy_from_slice(b"FOOBOS");
    img[15] = 2;
    put(&mut img, 20, 36, 4);
    put(&mut img, 24, BASE + XSDT as u64, 8);

    header(&mut img, XSDT, b"XSDT", 36 + 16);
    put(&mut img, XSDT + 36, BASE + MADT as u64, 8);
    put(&mut img, XSDT + 44, BASE + SPCR as u64, 8);

    header(&mut img, MADT, b"APIC", 36 + madt_payload.len());
    img[MADT + 36..MADT + 36 + madt_payload.len()].copy_from_slice(madt_payload);

    header(&mut img, SPCR, b"SPCR", 36 + spcr_payload.len());
    img[SPCR + 36..SPCR + 36 + spcr_payload.len()].copy_from_slice(spcr_payload);

    seal(&mut img, madt_payload.len(), spcr_payload.len());
    img
}

fn seal(img: &mut [u8], madt_len: usize, spcr_len: usize) {
    fix_checksum(img, 0, 20, 8);
    fix_checksum(img, 0, 36, 32);
    fix_checksum(img, XSDT, 36 + 16, XSDT + 9);
    fix_checksum(img, MADT, 36 + madt_len, MADT + 9);
    fix_checksum(img, SPCR, 36 + spcr_len, SPCR + 9);
}

fn one_apic_madt() -> Vec<u8> {
    let mut p = vec![0u8; 8];
    put(&mut p, 0, 0xfee0_0000, 4);
    p.extend_from_slice(&[0, 8, 0, 0, 1, 0, 0, 0]);
    p
}

fn console_spcr(interface: u8, space: u8, access: u8, baud: u8, parity: u8, stop: u8) -> Vec<u8> {
    let mut p = vec![interface, 0, 0, 0, space, 8, 0, access, 0xf8, 0x03, 0, 0, 0, 0, 0, 0];
    p.extend_from_slice(&[1, 4, 0, 0, 0, 0, baud, parity, stop]);
    p
}

fn mem(img: Vec<u8>) -> PhysMemory {
    PhysMemory::new(PhysAddr(BASE), img).unwrap()
}

#[test]
fn end_to_end_discovery() {
    let m = mem(image(&one_apic_madt(), &console_spcr(0, 1, 0, 7, 0, 1)));
    let acpi = init(&m, Some(PhysAddr(BASE))).unwrap();
    let madt: &Madt = acpi.madt.as_ref().unwrap();
    assert_eq!(madt.count(), 1);
    assert_eq!(madt.apics(), &[LocalApic { acpi_processor_uid: 0, apic_id: 0, flags: 1 }]);
    assert!(madt.x2apics().is_empty());
    let spcr: Spcr = acpi.spcr.unwrap();
    assert_eq!(spcr.interface_type, Interface::Serial16550);
    assert_eq!(spcr.baud_rate, BaudRate::Baud115200);
    assert_eq!(
        spcr.address,
        Gas::Io { addr: IoAddr(0x3f8), register_width: 8, register_offset: 0, access_size: AccessSize::Byte }
    );
}

#[test]
fn quirk_leaves_other_consoles_alone() {
    let m = mem(image(&one_apic_madt(), &console_spcr(1, 1, 0, 0, 0, 1)));
    let spcr = init(&m, Some(PhysAddr(BASE))).unwrap().spcr.unwrap();
    assert_eq!(spcr.interface_type, Interface::Serial16450);
    assert_eq!(spcr.baud_rate, BaudRate::AsIs);
    assert_eq!(
        spcr.address,
        Gas::Io { addr: IoAddr(0x3f8), register_width: 8, register_offset: 0, access_size: AccessSize::Undefined }
    );
}

#[test]
fn x2apic_records_are_parsed() {
    let mut p = one_apic_madt();
    p.extend_from_slice(&[9, 16, 0, 0]);
    let mut rec = vec![0u8; 12];
    put(&mut rec, 0, 0x42, 4);
    put(&mut rec, 4, 1, 4);
    put(&mut rec, 8, 7, 4);
    p.extend_from_slice(&rec);
    // An unknown structure is skipped
    p.extend_from_slice(&[4, 6, 0xff, 0, 0, 1]);
    let m = mem(image(&p, &console_spcr(0, 1, 1, 7, 0, 1)));
    let acpi = init(&m, Some(PhysAddr(BASE))).unwrap();
    let madt = acpi.madt.unwrap();
    assert_eq!(madt.count(), 2);
    assert_eq!(madt.x2apics(), &[LocalX2Apic { reserved: 0, x2apic_id: 0x42, flags: 1, acpi_processor_uid: 7 }]);
}

#[test]
fn checksum_valid_then_one_byte_flipped() {
    let img = image(&one_apic_madt(), &console_spcr(0, 1, 0, 7, 0, 1));
    assert!(init(&mem(img.clone()), Some(PhysAddr(BASE))).is_ok());
    for i in 0..20 {
        let mut bad = img.clone();
        bad[i] ^= 0x01;
        let r = init(&mem(bad), Some(PhysAddr(BASE)));
        assert_eq!(r.err(), Some(Error::ChecksumMismatch(TableType::Rsdp)), "byte {}", i);
    }
    let mut bad = img.clone();
    bad[MADT + 40] ^= 0x80;
    assert_eq!(init(&mem(bad), Some(PhysAddr(BASE))).err(), Some(Error::ChecksumMismatch(TableType::Madt)));
}

#[test]
fn root_errors() {
    let img = image(&one_apic_madt(), &console_spcr(0, 1, 0, 7, 0, 1));
    assert_eq!(init(&mem(img.clone()), None).err(), Some(Error::RootNotFound));

    let mut bad = img.clone();
    bad[0] = b'X';
    seal(&mut bad, 16, 25);
    assert_eq!(init(&mem(bad), Some(PhysAddr(BASE))).err(), Some(Error::SignatureMismatch(TableType::Rsdp)));

    let mut old = img.clone();
    old[15] = 1;
    seal(&mut old, 16, 25);
    assert_eq!(init(&mem(old), Some(PhysAddr(BASE))).err(), Some(Error::RevisionTooOld));

    let mut short = img.clone();
    put(&mut short, 20, 20, 4);
    seal(&mut short, 16, 25);
    assert_eq!(
        init(&mem(short), Some(PhysAddr(BASE))).err(),
        Some(Error::LengthMismatch(TableType::RsdpExtended))
    );

    assert_eq!(init(&mem(img), Some(PhysAddr(BASE + 0x3f0))).err(), Some(Error::Unmapped));
}

#[test]
fn table_list_errors() {
    let img = image(&one_apic_madt(), &console_spcr(0, 1, 0, 7, 0, 1));
    let mut sig = img.clone();
    sig[XSDT] = b'R';
    seal(&mut sig, 16, 25);
    assert_eq!(init(&mem(sig), Some(PhysAddr(BASE))).err(), Some(Error::SignatureMismatch(TableType::Xsdt)));

    let mut odd = img.clone();
    put(&mut odd, XSDT + 4, 36 + 12, 4);
    seal(&mut odd, 16, 25);
    fix_checksum(&mut odd, XSDT, 36 + 12, XSDT + 9);
    assert_eq!(init(&mem(odd), Some(PhysAddr(BASE))).err(), Some(Error::XsdtBadEntries));

    let mut tiny = img.clone();
    put(&mut tiny, SPCR + 4, 20, 4);
    seal(&mut tiny, 16, 25);
    fix_checksum(&mut tiny, SPCR, 20, SPCR + 9);
    assert_eq!(init(&mem(tiny), Some(PhysAddr(BASE))).err(), Some(Error::LengthMismatch(TableType::Spcr)));
}

#[test]
fn madt_errors() {
    let spcr = console_spcr(0, 1, 0, 7, 0, 1);
    let mut bad_len = one_apic_madt();
    bad_len[9] = 9;
    bad_len.push(0);
    let m = mem(image(&bad_len, &spcr));
    assert_eq!(init(&m, Some(PhysAddr(BASE))).err(), Some(Error::LengthMismatch(TableType::Madt)));

    let mut three = one_apic_madt();
    three.extend_from_slice(&[0, 8, 1, 1, 1, 0, 0, 0]);
    three.extend_from_slice(&[0, 8, 2, 2, 1, 0, 0, 0]);
    let m = mem(image(&three, &spcr));
    assert_eq!(init(&m, Some(PhysAddr(BASE))).err(), Some(Error::TooManyApics));

    let mut under = one_apic_madt();
    under.extend_from_slice(&[5, 1]);
    let m = mem(image(&under, &spcr));
    assert_eq!(init(&m, Some(PhysAddr(BASE))).err(), Some(Error::LengthMismatch(TableType::Madt)));
}

#[test]
fn spcr_errors() {
    let madt = one_apic_madt();
    let m = mem(image(&madt, &console_spcr(0, 1, 0, 2, 0, 1)));
    assert_eq!(init(&m, Some(PhysAddr(BASE))).err(), Some(Error::InvalidBaudRate));
    let m = mem(image(&madt, &console_spcr(0, 1, 0, 7, 1, 1)));
    assert_eq!(init(&m, Some(PhysAddr(BASE))).err(), Some(Error::InvalidParityBits));
    let m = mem(image(&madt, &console_spcr(0, 1, 0, 7, 0, 2)));
    assert_eq!(init(&m, Some(PhysAddr(BASE))).err(), Some(Error::InvalidStopBits));
}

#[test]
fn table_type_from_signature() {
    assert_eq!(TableType::from(*b"XSDT"), TableType::Xsdt);
    assert_eq!(TableType::from(*b"APIC"), TableType::Madt);
    assert_eq!(TableType::from(*b"SRAT"), TableType::Srat);
    assert_eq!(TableType::from(*b"SPCR"), TableType::Spcr);
    assert_eq!(TableType::from(*b"FACP"), TableType::Unknown(*b"FACP"));
}
