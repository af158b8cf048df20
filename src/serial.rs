//! Serial console description and driver decisions: the UART interface
//! kinds a console table names, the baud rates it allows, and the register
//! program and byte handling of a 16550-style driver reached through a
//! generic access structure.

use vstd::prelude::*;
use crate::gas::{AccessSize, Gas};

verus! {

/// Different baud rates for the serial device
#[derive(Debug, Clone, Copy, PartialEq, Eq, Structural)]
pub enum BaudRate {
    /// Do not change the baud rate
    AsIs,

    /// 9600
    Baud9600,

    /// 19200
    Baud19200,

    /// 57600
    Baud57600,

    /// 115200
    Baud115200,
}

/// Different types of serial devices
#[derive(Debug, Clone, Copy, PartialEq, Eq, Structural)]
pub enum Interface {
    /// Full 16550 interface
    Serial16550,

    /// Full 16450 interface (must also accept writing to the 16550 FCR
    /// register)
    Serial16450,

    /// MAX311xxE SPI UART
    Max311,

    /// ARM PL011 UART
    ArmPL011,

    /// MSM8x60 (e.g. 8960)
    Msm8x60,

    /// Nvidia 16550
    Nvidia16550,

    /// TI OMAP
    TiOmap,

    /// APM88xxxx
    Apm88xxxx,

    /// MSM8974
    Msm8974,

    /// SAM5250
    Sam5250,

    /// Intel USIF
    IntelUsif,

    /// i.MX 6
    IMX6,

    /// (deprecated) ARM SBSA (2.x only) Generic UART supporting only 32-bit
    /// accesses
    ArmSbsa32,

    /// ARM SBSA Generic UART
    ArmSbsa,

    /// ARM DCC
    ArmDcc,

    /// BCM2835
    Bcm2835,

    /// SDM845 with a clock rate of 1.8432 MHz
    Sdm845_18432,

    /// 16550-compatible with parameters defined in Generic Address Structure
    Serial16550Gas,

    /// SDM845 with a clock rate of 7.362 MHz
    Sdm845_7362,

    /// Intel LPSS
    IntelLpss,

    /// Unknown serial interface
    Unknown(u8),
}

/// The interface kind that raw value `val` encodes
pub open spec fn interface_of(val: u8) -> Interface {
    if val == 0 {
        Interface::Serial16550
    } else if val == 1 {
        Interface::Serial16450
    } else if val == 2 {
        Interface::Max311
    } else if val == 3 {
        Interface::ArmPL011
    } else if val == 4 {
        Interface::Msm8x60
    } else if val == 5 {
        Interface::Nvidia16550
    } else if val == 6 {
        Interface::TiOmap
    } else if val == 8 {
        Interface::Apm88xxxx
    } else if val == 9 {
        Interface::Msm8974
    } else if val == 10 {
        Interface::Sam5250
    } else if val == 11 {
        Interface::IntelUsif
    } else if val == 12 {
        Interface::IMX6
    } else if val == 13 {
        Interface::ArmSbsa32
    } else if val == 14 {
        Interface::ArmSbsa
    } else if val == 15 {
        Interface::ArmDcc
    } else if val == 16 {
        Interface::Bcm2835
    } else if val == 17 {
        Interface::Sdm845_18432
    } else if val == 18 {
        Interface::Serial16550Gas
    } else if val == 19 {
        Interface::Sdm845_7362
    } else if val == 20 {
        Interface::IntelLpss
    } else {
        Interface::Unknown(val)
    }
}

impl From<u8> for Interface {
    fn from(val: u8) -> Interface {
        match val {
            0 => Interface::Serial16550,
            1 => Interface::Serial16450,
            2 => Interface::Max311,
            3 => Interface::ArmPL011,
            4 => Interface::Msm8x60,
            5 => Interface::Nvidia16550,
            6 => Interface::TiOmap,
            8 => Interface::Apm88xxxx,
            9 => Interface::Msm8974,
            10 => Interface::Sam5250,
            11 => Interface::IntelUsif,
            12 => Interface::IMX6,
            13 => Interface::ArmSbsa32,
            14 => Interface::ArmSbsa,
            15 => Interface::ArmDcc,
            16 => Interface::Bcm2835,
            17 => Interface::Sdm845_18432,
            18 => Interface::Serial16550Gas,
            19 => Interface::Sdm845_7362,
            20 => Interface::IntelLpss,
            _ => Interface::Unknown(val),
        }
    }
}

impl vstd::std_specs::convert::FromSpecImpl<u8> for Interface {
    open spec fn obeys_from_spec() -> bool {
        true
    }

    open spec fn from_spec(v: u8) -> Interface {
        interface_of(v)
    }
}

/// Serial device errors
#[derive(Debug, Clone, Copy, PartialEq, Eq, Structural)]
pub enum Error {
    /// The interface is not a supported serial device for this driver
    UnsupportedDevice(Interface),

    /// Accessing the device through its generic access structure failed
    GasError(crate::gas::Error),
}

impl From<crate::gas::Error> for Error {
    fn from(val: crate::gas::Error) -> Error {
        Error::GasError(val)
    }
}

impl vstd::std_specs::convert::FromSpecImpl<crate::gas::Error> for Error {
    open spec fn obeys_from_spec() -> bool {
        true
    }

    open spec fn from_spec(v: crate::gas::Error) -> Error {
        Error::GasError(v)
    }
}

/// A 16550-style serial port driver
#[derive(Debug, Clone, Copy, PartialEq, Eq, Structural)]
pub struct Serial {
    /// Where the device's registers live
    device: Gas,
}

/// The divisor latch value (low byte, high byte) for a baud rate; `None`
/// leaves the rate as it is
pub open spec fn divisor_of(baud_rate: BaudRate) -> Option<(u64, u64)> {
    match baud_rate {
        BaudRate::AsIs => None,
        BaudRate::Baud115200 => Some((1u64, 0u64)),
        BaudRate::Baud57600 => Some((2u64, 0u64)),
        BaudRate::Baud19200 => Some((6u64, 0u64)),
        BaudRate::Baud9600 => Some((12u64, 0u64)),
    }
}

/// The register writes, as (register index, value), that set the device
/// up: interrupts off, the divisor if the rate changes, 8 data bits with
/// one stop bit and no parity, then RTS and DTR
pub open spec fn setup_program(baud_rate: BaudRate) -> Seq<(usize, u64)> {
    let divisor = match divisor_of(baud_rate) {
        Some((low, high)) => seq![(3usize, 0x80u64), (0usize, low), (1usize, high)],
        None => Seq::empty(),
    };
    seq![(1usize, 0u64)] + divisor + seq![(3usize, 0x03u64), (4usize, 0x03u64)]
}

/// Firmware quirk: a plain 16550 whose I/O-space access size is given as
/// undefined is byte-accessed
pub open spec fn device_quirk(device: Gas) -> Gas {
    match device {
        Gas::Io { addr, register_width, register_offset, access_size } =>
            if access_size == AccessSize::Undefined {
                Gas::Io { addr, register_width, register_offset, access_size: AccessSize::Byte }
            } else {
                device
            },
        _ => device,
    }
}

/// The bytes that go on the wire for `s`: a carriage return before every
/// line feed
pub open spec fn wire_bytes(s: Seq<u8>) -> Seq<u8>
    decreases s.len(),
{
    if s.len() == 0 {
        Seq::empty()
    } else if s.last() == 0x0a {
        wire_bytes(s.drop_last()) + seq![0x0du8, 0x0au8]
    } else {
        wire_bytes(s.drop_last()).push(s.last())
    }
}

impl Serial {
    /// The device's register location
    pub closed spec fn spec_device(&self) -> Gas {
        self.device
    }

    /// Take on a serial device of kind `interface` whose registers `device`
    /// describes. Only 16550 devices are supported; an undefined I/O access
    /// size is taken to be byte access.
    pub fn init(interface: Interface, device: Gas) -> (r: Result<Serial, Error>)
        ensures
            interface != Interface::Serial16550 ==> r == Err::<Serial, Error>(Error::UnsupportedDevice(interface)),
            interface == Interface::Serial16550 ==> (r matches Ok(s) && s.spec_device() == device_quirk(device)),
    {
        if interface != Interface::Serial16550 {
            return Err(Error::UnsupportedDevice(interface));
        }
        let device = match device {
            Gas::Io { addr, register_width, register_offset, access_size } => {
                if access_size == AccessSize::Undefined {
                    Gas::Io { addr, register_width, register_offset, access_size: AccessSize::Byte }
                } else {
                    device
                }
            },
            _ => device,
        };
        Ok(Serial { device })
    }

    /// Where the device's registers live
    pub fn device(&self) -> (r: Gas)
        ensures
            r == self.spec_device(),
    {
        self.device
    }

    /// The register writes, as (register index, value), that set the device
    /// up at `baud_rate`
    pub fn setup(baud_rate: BaudRate) -> (r: Vec<(usize, u64)>)
        ensures
            r@ == setup_program(baud_rate),
    {
        let mut prog: Vec<(usize, u64)> = Vec::new();

        // Disable all interrupts
        prog.push((1, 0x00));

        // Set the divisor latch access bit, then the divisor's low and high
        // bytes
        let divisor: Option<(u64, u64)> = match baud_rate {
            BaudRate::AsIs => None,
            BaudRate::Baud115200 => Some((1, 0)),
            BaudRate::Baud57600 => Some((2, 0)),
            BaudRate::Baud19200 => Some((6, 0)),
            BaudRate::Baud9600 => Some((12, 0)),
        };
        if let Some((low, high)) = divisor {
            prog.push((3, 0x80));
            prog.push((0, low));
            prog.push((1, high));
        }

        // 8 bits, 1 stop bit, no parity
        prog.push((3, 0x03));

        // Set RTS and DTR
        prog.push((4, 0x03));
        assert(prog@ =~= setup_program(baud_rate));
        prog
    }

    /// A byte waits in the receive buffer, by line status `lsr`
    pub fn data_ready(lsr: u64) -> (r: bool)
        ensures
            r == (lsr % 2 == 1),
    {
        lsr % 2 == 1
    }

    /// The byte received, if line status `lsr` says one is waiting in
    /// `data`
    pub fn received(lsr: u64, data: u64) -> (r: Option<u8>)
        ensures
            lsr % 2 == 0 ==> r is None,
            lsr % 2 == 1 ==> r == Some((data % 256) as u8),
    {
        if Self::data_ready(lsr) {
            Some((data % 256) as u8)
        } else {
            None
        }
    }

    /// The bytes to transmit to write `bytes` to the device: a carriage
    /// return goes before every line feed
    pub fn write(&self, bytes: &[u8]) -> (r: Vec<u8>)
        ensures
            r@ == wire_bytes(bytes@),
    {
        let mut out: Vec<u8> = Vec::new();
        let mut i: usize = 0;
        while i < bytes.len()
            invariant
                i <= bytes@.len(),
                out@ == wire_bytes(bytes@.take(i as int)),
            decreases bytes@.len() - i,
        {
            let byte = bytes[i];
            proof {
                assert(bytes@.take(i + 1).drop_last() =~= bytes@.take(i as int));
                assert(bytes@.take(i + 1).last() == byte);
            }
            // Write a CR prior to all LFs
            if byte == 0x0a {
                out.push(0x0d);
            }
            out.push(byte);
            i = i + 1;
        }
        assert(bytes@.take(i as int) =~= bytes@);
        out
    }
}

} // verus!
