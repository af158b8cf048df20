use foobos::gas::{AccessSize, Error, Gas, GasType, IoAddr, Machine};
use foobos::physmem::{PhysAddr, PhysMemory};

fn machine() -> Machine {
    Machine {
        memory: PhysMemory::new(PhysAddr(0x1000), vec![0; 64]).unwrap(),
        io: PhysMemory::new(PhysAddr(0x3f8), vec![0; 8]).unwrap(),
    }
}

fn mem_gas(width: u8, offset: u8, access_size: AccessSize) -> Gas {
    Gas::Memory { addr: PhysAddr(0x1000), register_width: width, register_offset: offset, access_size }
}

#[test]
fn gas_dword_write_then_read() {
    let mut m = machine();
    let g = mem_gas(32, 0, AccessSize::Dword);
    assert_eq!(g.write(0, 0xdeadbeef, &mut m), Ok(()));
    assert_eq!(g.read(0, &m), Ok(0xdeadbeef));
}

#[test]
fn gas_write_truncates_to_access_size() {
    let mut m = machine();
    let g = mem_gas(32, 0, AccessSize::Word);
    assert_eq!(g.write(1, 0x1234_5678, &mut m), Ok(()));
    assert_eq!(g.read(1, &m), Ok(0x5678));
    // Register 1 is 4 bytes in
    assert_eq!(m.memory.read_bytes(PhysAddr(0x1004), 4), Some(vec![0x78, 0x56, 0, 0]));
    let q = mem_gas(64, 0, AccessSize::Qword);
    assert_eq!(q.write(2, u64::MAX, &mut m), Ok(()));
    assert_eq!(q.read(2, &m), Ok(u64::MAX));
}

#[test]
fn gas_io_byte_registers() {
    let mut m = machine();
    let g = Gas::Io { addr: IoAddr(0x3f8), register_width: 8, register_offset: 0, access_size: AccessSize::Byte };
    assert_eq!(g.write(3, 0x1ff, &mut m), Ok(()));
    assert_eq!(g.read(3, &m), Ok(0xff));
    assert_eq!(m.io.read_le(PhysAddr(0x3fb), 1), Some(0xff));
    assert_eq!(g.read(8, &m), Err(Error::IoPortNotAvailable));
}

#[test]
fn gas_addr_resolves_stride() {
    let g = mem_gas(32, 0, AccessSize::Dword);
    assert_eq!(g.addr(5), Ok(GasType::Memory { addr: PhysAddr(0x1014), access_size: AccessSize::Dword }));
    let io = Gas::Io { addr: IoAddr(0x3f8), register_width: 16, register_offset: 0, access_size: AccessSize::Word };
    assert_eq!(io.addr(2), Ok(GasType::Io { addr: IoAddr(0x3fc), access_size: AccessSize::Word }));
}

#[test]
fn gas_addr_errors() {
    assert_eq!(mem_gas(0, 0, AccessSize::Byte).addr(0), Err(Error::WidthZero));
    assert_eq!(mem_gas(12, 0, AccessSize::Byte).addr(0), Err(Error::WidthNotMod8));
    assert_eq!(mem_gas(8, 4, AccessSize::Byte).addr(0), Err(Error::OffsetNonZero));
    let high = Gas::Memory {
        addr: PhysAddr(u64::MAX - 3),
        register_width: 32,
        register_offset: 0,
        access_size: AccessSize::Dword,
    };
    assert!(high.addr(0).is_ok());
    assert_eq!(high.addr(1), Err(Error::AddressOverflow));
    assert_eq!(Gas::Unimplemented.addr(0), Err(Error::TypeUnimplemented));
    assert_eq!(Gas::Unimplemented.read(0, &machine()), Err(Error::TypeUnimplemented));
}

#[test]
fn gas_access_size_errors() {
    let mut m = machine();
    assert_eq!(mem_gas(8, 0, AccessSize::Undefined).read(0, &m), Err(Error::InvalidAccessSize));
    assert_eq!(mem_gas(8, 0, AccessSize::Unspecified).write(0, 1, &mut m), Err(Error::InvalidAccessSize));
    let io = Gas::Io { addr: IoAddr(0x3f8), register_width: 64, register_offset: 0, access_size: AccessSize::Qword };
    assert_eq!(io.read(0, &m), Err(Error::InvalidAccessSize));
    let far = Gas::Memory { addr: PhysAddr(0x9000), register_width: 8, register_offset: 0, access_size: AccessSize::Byte };
    assert_eq!(far.read(0, &m), Err(Error::AddressUnmapped));
    assert_eq!(far.write(0, 1, &mut m), Err(Error::AddressUnmapped));
}

#[test]
fn gas_from_raw_bytes() {
    let raw = [1u8, 8, 0, 1, 0xf8, 0x03, 0, 0, 0, 0, 0, 0];
    assert_eq!(
        Gas::from(raw),
        Gas::Io { addr: IoAddr(0x3f8), register_width: 8, register_offset: 0, access_size: AccessSize::Byte }
    );
    let raw = [0u8, 32, 0, 3, 0x00, 0x10, 0xfe, 0xfe, 0, 0, 0, 0];
    assert_eq!(
        Gas::from(raw),
        Gas::Memory { addr: PhysAddr(0xfefe1000), register_width: 32, register_offset: 0, access_size: AccessSize::Dword }
    );
    assert_eq!(Gas::from([2u8; 12]), Gas::Unimplemented);
}

#[test]
fn access_size_from_raw() {
    assert_eq!(AccessSize::from(0), AccessSize::Undefined);
    assert_eq!(AccessSize::from(1), AccessSize::Byte);
    assert_eq!(AccessSize::from(2), AccessSize::Word);
    assert_eq!(AccessSize::from(3), AccessSize::Dword);
    assert_eq!(AccessSize::from(4), AccessSize::Qword);
    assert_eq!(AccessSize::from(5), AccessSize::Unspecified);
}

#[test]
fn gas_type_access_width() {
    let io = |access_size| GasType::Io { addr: IoAddr(0x3f8), access_size };
    let mem = |access_size| GasType::Memory { addr: PhysAddr(0x1000), access_size };
    assert_eq!(io(AccessSize::Byte).width(), Some(1));
    assert_eq!(io(AccessSize::Dword).width(), Some(4));
    assert_eq!(io(AccessSize::Qword).width(), None);
    assert_eq!(mem(AccessSize::Word).width(), Some(2));
    assert_eq!(mem(AccessSize::Qword).width(), Some(8));
    assert_eq!(mem(AccessSize::Undefined).width(), None);
}
