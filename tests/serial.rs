use foobos::gas::{AccessSize, Gas, IoAddr};
use foobos::physmem::PhysAddr;
use foobos::serial::{BaudRate, Error, Interface, Serial};

fn io(access_size: AccessSize) -> Gas {
    Gas::Io { addr: IoAddr(0x3f8), register_width: 8, register_offset: 0, access_size }
}

#[test]
fn serial_init_supports_16550_only() {
    assert_eq!(Serial::init(Interface::ArmPL011, io(AccessSize::Byte)).err(), Some(Error::UnsupportedDevice(Interface::ArmPL011)));
    let s = Serial::init(Interface::Serial16550, io(AccessSize::Undefined)).unwrap();
    assert_eq!(s.device(), io(AccessSize::Byte));
    let s = Serial::init(Interface::Serial16550, io(AccessSize::Word)).unwrap();
    assert_eq!(s.device(), io(AccessSize::Word));
    let mem = Gas::Memory { addr: PhysAddr(0x1000), register_width: 8, register_offset: 0, access_size: AccessSize::Undefined };
    assert_eq!(Serial::init(Interface::Serial16550, mem).unwrap().device(), mem);
}

#[test]
fn serial_setup_program() {
    assert_eq!(Serial::setup(BaudRate::Baud115200), vec![(1, 0), (3, 0x80), (0, 1), (1, 0), (3, 3), (4, 3)]);
    assert_eq!(Serial::setup(BaudRate::Baud9600), vec![(1, 0), (3, 0x80), (0, 12), (1, 0), (3, 3), (4, 3)]);
    assert_eq!(Serial::setup(BaudRate::AsIs), vec![(1, 0), (3, 3), (4, 3)]);
}

#[test]
fn serial_write_adds_carriage_returns() {
    let s = Serial::init(Interface::Serial16550, io(AccessSize::Byte)).unwrap();
    assert_eq!(s.write(b"hi\nyo\n"), b"hi\r\nyo\r\n".to_vec());
    assert_eq!(s.write(b""), Vec::<u8>::new());
}

#[test]
fn serial_receive_decisions() {
    assert!(Serial::data_ready(0x61));
    assert!(!Serial::data_ready(0x60));
    assert_eq!(Serial::received(0x01, 0x141), Some(0x41));
    assert_eq!(Serial::received(0x20, 0x41), None);
}

#[test]
fn interface_from_raw() {
    assert_eq!(Interface::from(0), Interface::Serial16550);
    assert_eq!(Interface::from(7), Interface::Unknown(7));
    assert_eq!(Interface::from(18), Interface::Serial16550Gas);
    assert_eq!(Interface::from(21), Interface::Unknown(21));
}
