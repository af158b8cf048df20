//! The generic access structure: a descriptor of where a device's registers
//! live (system memory or I/O port space), how wide they are and how they
//! are accessed, resolved by register index and used for reads and writes.

use vstd::prelude::*;
use crate::physmem::{le_at, le_bytes, le_encode, pow256, PhysAddr, PhysMemory};

verus! {

/// A generic access structure error
#[derive(Debug, Clone, Copy, PartialEq, Eq, Structural)]
pub enum Error {
    /// A register bit width was zero
    WidthZero,

    /// A register bit width was not divisible by 8
    WidthNotMod8,

    /// A register bit offset was non-zero; allowed by the tables' format but
    /// not supported here
    OffsetNonZero,

    /// An integer overflow occurred when computing a register address
    AddressOverflow,

    /// A structure with an unimplemented address space
    TypeUnimplemented,

    /// The access size does not allow the operation
    InvalidAccessSize,

    /// The I/O port is not present
    IoPortNotAvailable,

    /// The memory address is not backed by the memory image
    AddressUnmapped,
}

/// An access size for a generic access structure
#[derive(Debug, Clone, Copy, PartialEq, Eq, Structural)]
pub enum AccessSize {
    /// Undefined (legacy reasons)
    Undefined,

    /// Byte access
    Byte,

    /// Word access
    Word,

    /// Dword access
    Dword,

    /// Qword access
    Qword,

    /// Not defined by the tables' format
    Unspecified,
}

/// The access size that raw value `val` encodes
pub open spec fn access_size_of(val: u8) -> AccessSize {
    if val == 0 {
        AccessSize::Undefined
    } else if val == 1 {
        AccessSize::Byte
    } else if val == 2 {
        AccessSize::Word
    } else if val == 3 {
        AccessSize::Dword
    } else if val == 4 {
        AccessSize::Qword
    } else {
        AccessSize::Unspecified
    }
}

impl From<u8> for AccessSize {
    fn from(val: u8) -> AccessSize {
        match val {
            0 => AccessSize::Undefined,
            1 => AccessSize::Byte,
            2 => AccessSize::Word,
            3 => AccessSize::Dword,
            4 => AccessSize::Qword,
            _ => AccessSize::Unspecified,
        }
    }
}

impl vstd::std_specs::convert::FromSpecImpl<u8> for AccessSize {
    open spec fn obeys_from_spec() -> bool {
        true
    }

    open spec fn from_spec(v: u8) -> AccessSize {
        access_size_of(v)
    }
}

/// An I/O port address
#[derive(Clone, Copy, Debug, PartialEq, Eq, Structural)]
pub struct IoAddr(pub u64);

/// A generic access structure
#[allow(inconsistent_fields)]
#[derive(Debug, Clone, Copy, PartialEq, Eq, Structural)]
pub enum Gas {
    /// An address in system memory space
    Memory {
        /// Base address
        addr: PhysAddr,
        /// Width of a register in bits, the stride between indices
        register_width: u8,
        /// Register offset in bits
        register_offset: u8,
        /// Access size
        access_size: AccessSize,
    },
    /// An address in system I/O space
    Io {
        /// Base I/O address
        addr: IoAddr,
        /// Width of a register in bits, the stride between indices
        register_width: u8,
        /// Register offset in bits
        register_offset: u8,
        /// Access size
        access_size: AccessSize,
    },
    /// An address space that is not implemented
    Unimplemented,
}

/// A `Gas` that has been indexed and checked: one register's location
#[allow(inconsistent_fields)]
#[derive(Debug, Clone, Copy, PartialEq, Eq, Structural)]
pub enum GasType {
    /// An address in system memory space
    Memory {
        /// Address
        addr: PhysAddr,
        /// Access size
        access_size: AccessSize,
    },
    /// An address in system I/O space
    Io {
        /// I/O address
        addr: IoAddr,
        /// Access size
        access_size: AccessSize,
    },
}

/// The register checks and address computation for base `base`, width and
/// offset in bits, and register index `idx`
pub open spec fn resolve_addr(base: u64, width: u8, offset: u8, idx: int) -> Result<u64, Error> {
    if width == 0 {
        Err(Error::WidthZero)
    } else if width % 8 != 0 {
        Err(Error::WidthNotMod8)
    } else if offset != 0 {
        Err(Error::OffsetNonZero)
    } else if idx * (width / 8) + base > u64::MAX {
        Err(Error::AddressOverflow)
    } else {
        Ok((idx * (width / 8) + base) as u64)
    }
}

/// The register location that index `idx` of `g` resolves to
pub open spec fn resolve(g: Gas, idx: int) -> Result<GasType, Error> {
    match g {
        Gas::Memory { addr, register_width, register_offset, access_size } =>
            match resolve_addr(addr.0, register_width, register_offset, idx) {
                Ok(a) => Ok(GasType::Memory { addr: PhysAddr(a), access_size }),
                Err(e) => Err(e),
            },
        Gas::Io { addr, register_width, register_offset, access_size } =>
            match resolve_addr(addr.0, register_width, register_offset, idx) {
                Ok(a) => Ok(GasType::Io { addr: IoAddr(a), access_size }),
                Err(e) => Err(e),
            },
        Gas::Unimplemented => Err(Error::TypeUnimplemented),
    }
}

/// The number of bytes an access of size `s` moves, in I/O space when `io`
/// holds; `None` when such an access is not possible
pub open spec fn access_bytes(s: AccessSize, io: bool) -> Option<nat> {
    match s {
        AccessSize::Byte => Some(1nat),
        AccessSize::Word => Some(2nat),
        AccessSize::Dword => Some(4nat),
        AccessSize::Qword => if io { None } else { Some(8nat) },
        _ => None,
    }
}

/// The value `t` reads from machine `m`, zero-extended
pub open spec fn read_result(t: GasType, m: Machine) -> Result<u64, Error> {
    match t {
        GasType::Io { addr, access_size } => match access_bytes(access_size, true) {
            None => Err(Error::InvalidAccessSize),
            Some(n) => if m.io.mapped(addr.0 as int, n as int) {
                Ok(le_bytes(m.io.bytes_at(addr.0 as int, n as int)) as u64)
            } else {
                Err(Error::IoPortNotAvailable)
            },
        },
        GasType::Memory { addr, access_size } => match access_bytes(access_size, false) {
            None => Err(Error::InvalidAccessSize),
            Some(n) => if m.memory.mapped(addr.0 as int, n as int) {
                Ok(le_bytes(m.memory.bytes_at(addr.0 as int, n as int)) as u64)
            } else {
                Err(Error::AddressUnmapped)
            },
        },
    }
}

/// `img` with the bytes at offset `off` replaced by `b`
pub open spec fn splice(img: Seq<u8>, off: int, b: Seq<u8>) -> Seq<u8> {
    img.subrange(0, off) + b + img.subrange(off + b.len(), img.len() as int)
}

/// The error writing through `t` gives on `m`, if any
pub open spec fn write_error(t: GasType, m: Machine) -> Option<Error> {
    match t {
        GasType::Io { addr, access_size } => match access_bytes(access_size, true) {
            None => Some(Error::InvalidAccessSize),
            Some(n) => if m.io.mapped(addr.0 as int, n as int) { None } else { Some(Error::IoPortNotAvailable) },
        },
        GasType::Memory { addr, access_size } => match access_bytes(access_size, false) {
            None => Some(Error::InvalidAccessSize),
            Some(n) => if m.memory.mapped(addr.0 as int, n as int) { None } else { Some(Error::AddressUnmapped) },
        },
    }
}

/// Writing `val` through `t` turns machine `before` into `after`: the
/// access-width low bytes of `val` land at the register, nothing else changes
pub open spec fn written(t: GasType, val: u64, before: Machine, after: Machine) -> bool {
    &&& after.memory.base_addr() == before.memory.base_addr()
    &&& after.io.base_addr() == before.io.base_addr()
    &&& match t {
        GasType::Io { addr, access_size } => {
            let n = access_bytes(access_size, true)->Some_0;
            &&& after.memory.image() == before.memory.image()
            &&& after.io.image() == splice(before.io.image(), addr.0 - before.io.base_addr(), le_encode(val as nat, n))
        },
        GasType::Memory { addr, access_size } => {
            let n = access_bytes(access_size, false)->Some_0;
            &&& after.io.image() == before.io.image()
            &&& after.memory.image() == splice(before.memory.image(), addr.0 - before.memory.base_addr(), le_encode(val as nat, n))
        },
    }
}

/// The address spaces a register can live in: system memory and I/O ports,
/// each a byte image
#[derive(Debug)]
pub struct Machine {
    /// System memory
    pub memory: PhysMemory,

    /// I/O port space, one byte per port
    pub io: PhysMemory,
}

impl Machine {
    /// Both images are well formed
    pub open spec fn wf(&self) -> bool {
        self.memory.wf() && self.io.wf()
    }
}

impl IoAddr {
    /// Read a byte from the I/O port
    pub fn read_u8(&self, io: &PhysMemory) -> (r: Result<u8, Error>)
        requires
            io.wf(),
        ensures
            r is Ok <==> io.mapped(self.0 as int, 1),
            r matches Ok(v) ==> v as nat == le_bytes(io.bytes_at(self.0 as int, 1)),
            r is Err ==> r == Err::<u8, Error>(Error::IoPortNotAvailable),
    {
        match io.read_le(PhysAddr(self.0), 1) {
            Some(v) => {
                proof {
                    crate::physmem::lemma_le_bytes_bound(io.bytes_at(self.0 as int, 1));
                    crate::physmem::lemma_pow256_8();
                }
                Ok(v as u8)
            },
            None => Err(Error::IoPortNotAvailable),
        }
    }

    /// Read a word from the I/O port
    pub fn read_u16(&self, io: &PhysMemory) -> (r: Result<u16, Error>)
        requires
            io.wf(),
        ensures
            r is Ok <==> io.mapped(self.0 as int, 2),
            r matches Ok(v) ==> v as nat == le_bytes(io.bytes_at(self.0 as int, 2)),
            r is Err ==> r == Err::<u16, Error>(Error::IoPortNotAvailable),
    {
        match io.read_le(PhysAddr(self.0), 2) {
            Some(v) => {
                proof {
                    crate::physmem::lemma_le_bytes_bound(io.bytes_at(self.0 as int, 2));
                    crate::physmem::lemma_pow256_8();
                }
                Ok(v as u16)
            },
            None => Err(Error::IoPortNotAvailable),
        }
    }

    /// Read a dword from the I/O port
    pub fn read_u32(&self, io: &PhysMemory) -> (r: Result<u32, Error>)
        requires
            io.wf(),
        ensures
            r is Ok <==> io.mapped(self.0 as int, 4),
            r matches Ok(v) ==> v as nat == le_bytes(io.bytes_at(self.0 as int, 4)),
            r is Err ==> r == Err::<u32, Error>(Error::IoPortNotAvailable),
    {
        match io.read_le(PhysAddr(self.0), 4) {
            Some(v) => {
                proof {
                    crate::physmem::lemma_le_bytes_bound(io.bytes_at(self.0 as int, 4));
                    crate::physmem::lemma_pow256_8();
                }
                Ok(v as u32)
            },
            None => Err(Error::IoPortNotAvailable),
        }
    }

    /// Write `n` bytes of `val` to the I/O port
    fn write_n(&self, io: &mut PhysMemory, n: usize, val: u64) -> (r: Result<(), Error>)
        requires
            old(io).wf(),
            n <= 8,
        ensures
            final(io).wf(),
            final(io).base_addr() == old(io).base_addr(),
            r is Ok <==> old(io).mapped(self.0 as int, n as int),
            r is Err ==> r == Err::<(), Error>(Error::IoPortNotAvailable) && final(io).image() == old(io).image(),
            r is Ok ==> final(io).image() == splice(old(io).image(), self.0 - old(io).base_addr(), le_encode(val as nat, n as nat)),
    {
        proof {
            crate::physmem::lemma_le_round_trip(val as nat, n as nat);
        }
        match io.write_le(PhysAddr(self.0), n, val) {
            Ok(()) => Ok(()),
            Err(()) => Err(Error::IoPortNotAvailable),
        }
    }

    /// Write a byte to the I/O port
    pub fn write_u8(&self, io: &mut PhysMemory, val: u8) -> (r: Result<(), Error>)
        requires
            old(io).wf(),
        ensures
            final(io).wf(),
            final(io).base_addr() == old(io).base_addr(),
            r is Ok <==> old(io).mapped(self.0 as int, 1),
            r is Err ==> r == Err::<(), Error>(Error::IoPortNotAvailable) && final(io).image() == old(io).image(),
            r is Ok ==> final(io).image() == splice(old(io).image(), self.0 - old(io).base_addr(), le_encode(val as nat, 1)),
    {
        self.write_n(io, 1, val as u64)
    }

    /// Write a word to the I/O port
    pub fn write_u16(&self, io: &mut PhysMemory, val: u16) -> (r: Result<(), Error>)
        requires
            old(io).wf(),
        ensures
            final(io).wf(),
            final(io).base_addr() == old(io).base_addr(),
            r is Ok <==> old(io).mapped(self.0 as int, 2),
            r is Err ==> r == Err::<(), Error>(Error::IoPortNotAvailable) && final(io).image() == old(io).image(),
            r is Ok ==> final(io).image() == splice(old(io).image(), self.0 - old(io).base_addr(), le_encode(val as nat, 2)),
    {
        self.write_n(io, 2, val as u64)
    }

    /// Write a dword to the I/O port
    pub fn write_u32(&self, io: &mut PhysMemory, val: u32) -> (r: Result<(), Error>)
        requires
            old(io).wf(),
        ensures
            final(io).wf(),
            final(io).base_addr() == old(io).base_addr(),
            r is Ok <==> old(io).mapped(self.0 as int, 4),
            r is Err ==> r == Err::<(), Error>(Error::IoPortNotAvailable) && final(io).image() == old(io).image(),
            r is Ok ==> final(io).image() == splice(old(io).image(), self.0 - old(io).base_addr(), le_encode(val as nat, 4)),
    {
        self.write_n(io, 4, val as u64)
    }
}

/// The number of bytes an access through `t` moves, where it is possible
pub open spec fn access_width(t: GasType) -> Option<nat> {
    match t {
        GasType::Io { access_size, .. } => access_bytes(access_size, true),
        GasType::Memory { access_size, .. } => access_bytes(access_size, false),
    }
}

/// The structure that the 12 raw bytes `b` describe: space id, register
/// width, register offset, access size, then a little-endian address
pub open spec fn gas_of(b: Seq<u8>) -> Gas {
    if b[0] == 0 {
        Gas::Memory {
            addr: PhysAddr(le_bytes(b.subrange(4, 12)) as u64),
            register_width: b[1],
            register_offset: b[2],
            access_size: access_size_of(b[3]),
        }
    } else if b[0] == 1 {
        Gas::Io {
            addr: IoAddr(le_bytes(b.subrange(4, 12)) as u64),
            register_width: b[1],
            register_offset: b[2],
            access_size: access_size_of(b[3]),
        }
    } else {
        Gas::Unimplemented
    }
}

impl Gas {
    /// The structure that the 12 raw bytes `val` describe
    pub fn from_bytes(val: &[u8]) -> (r: Gas)
        requires
            val@.len() == 12,
        ensures
            r == gas_of(val@),
    {
        let addr = le_at(val, 4, 8);
        match val[0] {
            0 => Gas::Memory {
                addr: PhysAddr(addr),
                register_width: val[1],
                register_offset: val[2],
                access_size: AccessSize::from(val[3]),
            },
            1 => Gas::Io {
                addr: IoAddr(addr),
                register_width: val[1],
                register_offset: val[2],
                access_size: AccessSize::from(val[3]),
            },
            _ => Gas::Unimplemented,
        }
    }
}

impl From<[u8; 12]> for Gas {
    fn from(val: [u8; 12]) -> Gas {
        Gas::from_bytes(val.as_slice())
    }
}

impl vstd::std_specs::convert::FromSpecImpl<[u8; 12]> for Gas {
    open spec fn obeys_from_spec() -> bool {
        true
    }

    open spec fn from_spec(v: [u8; 12]) -> Gas {
        gas_of(v@)
    }
}

/// Check a register's width and offset, then compute the address of
/// register `idx` from `base`
fn register_addr(base: u64, width: u8, offset: u8, idx: usize) -> (r: Result<u64, Error>)
    ensures
        r == resolve_addr(base, width, offset, idx as int),
{
    if width == 0 {
        return Err(Error::WidthZero);
    }
    if width % 8 != 0 {
        return Err(Error::WidthNotMod8);
    }
    if offset != 0 {
        return Err(Error::OffsetNonZero);
    }
    let stride = (width / 8) as u64;
    match (idx as u64).checked_mul(stride) {
        Some(x) => match x.checked_add(base) {
            Some(a) => Ok(a),
            None => Err(Error::AddressOverflow),
        },
        None => {
            proof {
                assert(idx * (width / 8) + base > u64::MAX) by (nonlinear_arith)
                    requires
                        idx * stride > u64::MAX,
                        stride == width / 8,
                ;
            }
            Err(Error::AddressOverflow)
        },
    }
}

impl GasType {
    /// The number of bytes one access through `self` moves; `None` where
    /// the access size is not possible in the register's address space
    pub fn width(&self) -> (r: Option<usize>)
        ensures
            r is None <==> access_width(*self) is None,
            r matches Some(n) ==> access_width(*self) == Some(n as nat),
    {
        let (size, io) = match self {
            GasType::Io { access_size, .. } => (*access_size, true),
            GasType::Memory { access_size, .. } => (*access_size, false),
        };
        match size {
            AccessSize::Byte => Some(1),
            AccessSize::Word => Some(2),
            AccessSize::Dword => Some(4),
            AccessSize::Qword => if io { None } else { Some(8) },
            _ => None,
        }
    }

    /// Read a value from the location specified by `self`, zero-extended
    /// from the access size
    pub fn read(&self, m: &Machine) -> (r: Result<u64, Error>)
        requires
            m.wf(),
        ensures
            r == read_result(*self, *m),
    {
        match self {
            GasType::Io { addr, access_size } => match access_size {
                AccessSize::Byte => match addr.read_u8(&m.io) {
                    Ok(v) => Ok(v as u64),
                    Err(e) => Err(e),
                },
                AccessSize::Word => match addr.read_u16(&m.io) {
                    Ok(v) => Ok(v as u64),
                    Err(e) => Err(e),
                },
                AccessSize::Dword => match addr.read_u32(&m.io) {
                    Ok(v) => Ok(v as u64),
                    Err(e) => Err(e),
                },
                _ => Err(Error::InvalidAccessSize),
            },
            GasType::Memory { addr, access_size } => {
                let n: usize = match access_size {
                    AccessSize::Byte => 1,
                    AccessSize::Word => 2,
                    AccessSize::Dword => 4,
                    AccessSize::Qword => 8,
                    _ => {
                        return Err(Error::InvalidAccessSize);
                    },
                };
                match m.memory.read_le(*addr, n) {
                    Some(v) => Ok(v),
                    None => Err(Error::AddressUnmapped),
                }
            },
        }
    }

    /// Write `val`, truncated to the access size, to the location specified
    /// by `self`
    pub fn write(&self, m: &mut Machine, val: u64) -> (r: Result<(), Error>)
        requires
            old(m).wf(),
        ensures
            final(m).wf(),
            r is Ok <==> write_error(*self, *old(m)) is None,
            r matches Err(e) ==> write_error(*self, *old(m)) == Some(e)
                && final(m).memory.image() == old(m).memory.image()
                && final(m).io.image() == old(m).io.image()
                && final(m).memory.base_addr() == old(m).memory.base_addr()
                && final(m).io.base_addr() == old(m).io.base_addr(),
            r is Ok ==> written(*self, val, *old(m), *final(m)),
    {
        match self {
            GasType::Io { addr, access_size } => match access_size {
                AccessSize::Byte => addr.write_n(&mut m.io, 1, val),
                AccessSize::Word => addr.write_n(&mut m.io, 2, val),
                AccessSize::Dword => addr.write_n(&mut m.io, 4, val),
                _ => Err(Error::InvalidAccessSize),
            },
            GasType::Memory { addr, access_size } => {
                let n: usize = match access_size {
                    AccessSize::Byte => 1,
                    AccessSize::Word => 2,
                    AccessSize::Dword => 4,
                    AccessSize::Qword => 8,
                    _ => {
                        return Err(Error::InvalidAccessSize);
                    },
                };
                proof {
                    crate::physmem::lemma_le_round_trip(val as nat, n as nat);
                }
                match m.memory.write_le(*addr, n, val) {
                    Ok(()) => Ok(()),
                    Err(()) => Err(Error::AddressUnmapped),
                }
            },
        }
    }
}

impl Gas {
    /// Read register `idx` of the location specified by `self`,
    /// zero-extended from the access size
    pub fn read(&self, idx: usize, m: &Machine) -> (r: Result<u64, Error>)
        requires
            m.wf(),
        ensures
            r == match resolve(*self, idx as int) {
                Ok(t) => read_result(t, *m),
                Err(e) => Err(e),
            },
    {
        match self.addr(idx) {
            Ok(t) => t.read(m),
            Err(e) => Err(e),
        }
    }

    /// Write `val`, truncated to the access size, to register `idx` of the
    /// location specified by `self`
    pub fn write(&self, idx: usize, val: u64, m: &mut Machine) -> (r: Result<(), Error>)
        requires
            old(m).wf(),
        ensures
            final(m).wf(),
            r is Ok <==> (resolve(*self, idx as int) is Ok && write_error(resolve(*self, idx as int)->Ok_0, *old(m)) is None),
            r matches Err(e) ==> (match resolve(*self, idx as int) {
                Ok(t) => write_error(t, *old(m)) == Some(e),
                Err(e2) => e == e2,
            }) && final(m).memory.image() == old(m).memory.image()
                && final(m).io.image() == old(m).io.image()
                && final(m).memory.base_addr() == old(m).memory.base_addr()
                && final(m).io.base_addr() == old(m).io.base_addr(),
            r is Ok ==> written(resolve(*self, idx as int)->Ok_0, val, *old(m), *final(m)),
    {
        match self.addr(idx) {
            Ok(t) => t.write(m, val),
            Err(e) => Err(e),
        }
    }

    /// Compute the location of register `idx` of this structure, checking
    /// the register width and offset
    pub fn addr(&self, idx: usize) -> (r: Result<GasType, Error>)
        ensures
            r == resolve(*self, idx as int),
    {
        match self {
            Gas::Io { addr, register_width, register_offset, access_size } => {
                match register_addr(addr.0, *register_width, *register_offset, idx) {
                    Ok(a) => Ok(GasType::Io { addr: IoAddr(a), access_size: *access_size }),
                    Err(e) => Err(e),
                }
            },
            Gas::Memory { addr, register_width, register_offset, access_size } => {
                match register_addr(addr.0, *register_width, *register_offset, idx) {
                    Ok(a) => Ok(GasType::Memory { addr: PhysAddr(a), access_size: *access_size }),
                    Err(e) => Err(e),
                }
            },
            Gas::Unimplemented => Err(Error::TypeUnimplemented),
        }
    }
}

/// Writing `val` to a register and reading the same register back gives
/// `val` truncated to the access width
pub proof fn lemma_write_then_read(g: Gas, idx: int, val: u64, before: Machine, after: Machine)
    requires
        before.wf(),
        resolve(g, idx) is Ok,
        write_error(resolve(g, idx)->Ok_0, before) is None,
        written(resolve(g, idx)->Ok_0, val, before, after),
    ensures
        read_result(resolve(g, idx)->Ok_0, after) == Ok::<u64, Error>(
            (val as nat % pow256(access_width(resolve(g, idx)->Ok_0)->Some_0)) as u64),
{
    let t = resolve(g, idx)->Ok_0;
    let n = access_width(t)->Some_0;
    crate::physmem::lemma_le_round_trip(val as nat, n);
    let enc = le_encode(val as nat, n);
    match t {
        GasType::Io { addr, access_size } => {
            let off = addr.0 - before.io.base_addr();
            assert(after.io.bytes_at(addr.0 as int, n as int) =~= enc);
        },
        GasType::Memory { addr, access_size } => {
            let off = addr.0 - before.memory.base_addr();
            assert(after.memory.bytes_at(addr.0 as int, n as int) =~= enc);
        },
    }
}

} // verus!
