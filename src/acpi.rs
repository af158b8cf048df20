//! Discovery and validation of the firmware's description tables: the root
//! pointer, the extended root, the table list and the tables it points to,
//! with the processor topology and console tables parsed into values.

use vstd::prelude::*;
use crate::gas::{gas_of, AccessSize, Gas};
use crate::physmem::{le_at, le_bytes, PhysAddr, PhysMemory, PhysSlice};
use crate::serial::{interface_of, BaudRate, Interface};

verus! {

/// Maximum number of processors of each kind recorded from the MADT
pub const MAX_CORES: usize = 2;

/// Size of the root pointer structure of the first table revision
pub const RSDP_SIZE: usize = 20;

/// Size of the extended root pointer structure
pub const RSDP_EXTENDED_SIZE: usize = 36;

/// Size of the header every table starts with
pub const TABLE_HEADER_SIZE: usize = 36;

/// Different types of tables, used mainly for error information
#[derive(Debug, Clone, Copy, PartialEq, Eq)]
pub enum TableType {
    /// The root system description pointer
    Rsdp,

    /// The extended root system description pointer
    RsdpExtended,

    /// Extended System Description Table
    Xsdt,

    /// Multiple APIC Description Table
    Madt,

    /// System Resource Affinity Table
    Srat,

    /// Serial Port Console Redirection Table
    Spcr,

    /// An unknown table type
    Unknown([u8; 4]),
}

/// The table type that signature `s` (four bytes) names
pub open spec fn table_type_of(s: Seq<u8>) -> TableType {
    if s =~= seq![0x58u8, 0x53u8, 0x44u8, 0x54u8] {
        TableType::Xsdt
    } else if s =~= seq![0x41u8, 0x50u8, 0x49u8, 0x43u8] {
        TableType::Madt
    } else if s =~= seq![0x53u8, 0x52u8, 0x41u8, 0x54u8] {
        TableType::Srat
    } else if s =~= seq![0x53u8, 0x50u8, 0x43u8, 0x52u8] {
        TableType::Spcr
    } else {
        TableType::Unknown([s[0], s[1], s[2], s[3]])
    }
}

/// Whether the four bytes at `off` of `b` are `c0 c1 c2 c3`
fn sig_is(b: &[u8], off: usize, c0: u8, c1: u8, c2: u8, c3: u8) -> (r: bool)
    requires
        off + 4 <= b@.len(),
    ensures
        r == (b@.subrange(off as int, off + 4) =~= seq![c0, c1, c2, c3]),
{
    b[off] == c0 && b[off + 1] == c1 && b[off + 2] == c2 && b[off + 3] == c3
}

/// The table type named by the signature at `off` of `b`
fn table_type_at(b: &[u8], off: usize) -> (r: TableType)
    requires
        off + 4 <= b@.len(),
    ensures
        r == table_type_of(b@.subrange(off as int, off + 4)),
{
    if sig_is(b, off, 0x58, 0x53, 0x44, 0x54) {
        TableType::Xsdt
    } else if sig_is(b, off, 0x41, 0x50, 0x49, 0x43) {
        TableType::Madt
    } else if sig_is(b, off, 0x53, 0x52, 0x41, 0x54) {
        TableType::Srat
    } else if sig_is(b, off, 0x53, 0x50, 0x43, 0x52) {
        TableType::Spcr
    } else {
        let r = TableType::Unknown([b[off], b[off + 1], b[off + 2], b[off + 3]]);
        proof {
            let s = b@.subrange(off as int, off + 4);
            assert(s[0] == b[off as int] && s[1] == b[off + 1] && s[2] == b[off + 2] && s[3] == b[off + 3]);
        }
        r
    }
}

impl From<[u8; 4]> for TableType {
    fn from(val: [u8; 4]) -> TableType {
        let b = val.as_slice();
        table_type_at(b, 0)
    }
}

impl vstd::std_specs::convert::FromSpecImpl<[u8; 4]> for TableType {
    open spec fn obeys_from_spec() -> bool {
        true
    }

    open spec fn from_spec(v: [u8; 4]) -> TableType {
        table_type_of(v@)
    }
}

/// Errors from table discovery and parsing
#[derive(Debug, Clone, Copy, PartialEq, Eq)]
pub enum Error {
    /// The firmware reported no root pointer
    RootNotFound,

    /// A table read reached memory outside the memory image
    Unmapped,

    /// A table had an invalid checksum
    ChecksumMismatch(TableType),

    /// A table did not match the correct signature
    SignatureMismatch(TableType),

    /// A table did not match the expected length
    LengthMismatch(TableType),

    /// The extended root pointer needs revision 2 or later
    RevisionTooOld,

    /// The table list size was not evenly divisible by the entry size
    XsdtBadEntries,

    /// An integer overflow occured
    IntegerOverflow,

    /// More APICs were found than there is room for
    TooManyApics,

    /// More x2APICs were found than there is room for
    TooManyX2Apics,

    /// The console table did not specify zero parity bits (all other values
    /// are reserved)
    InvalidParityBits,

    /// The console table did not specify one stop bit (all other values are
    /// reserved)
    InvalidStopBits,

    /// The console table specified a reserved baud rate
    InvalidBaudRate,
}

/// The sum of the bytes of `s`
pub open spec fn byte_sum(s: Seq<u8>) -> int
    decreases s.len(),
{
    if s.len() == 0 {
        0
    } else {
        byte_sum(s.drop_last()) + s.last()
    }
}

/// The outcome of checking that the `size` bytes at `addr` sum to zero
/// modulo 256
pub open spec fn checksum_result(mem: PhysMemory, addr: int, size: int, typ: TableType) -> Result<(), Error> {
    if size == 0 {
        Ok(())
    } else if !mem.mapped(addr, size) {
        Err(Error::Unmapped)
    } else if byte_sum(mem.bytes_at(addr, size)) % 256 != 0 {
        Err(Error::ChecksumMismatch(typ))
    } else {
        Ok(())
    }
}

/// Compute a checksum on physical memory: the `size` bytes at `addr` must
/// sum to zero modulo 256. `typ` names the table in the error.
pub fn checksum(mem: &PhysMemory, addr: PhysAddr, size: usize, typ: TableType) -> (r: Result<(), Error>)
    requires
        mem.wf(),
    ensures
        r == checksum_result(*mem, addr.0 as int, size as int, typ),
{
    if size == 0 {
        return Ok(());
    }
    let bytes = match mem.read_bytes(addr, size) {
        Some(b) => b,
        None => {
            return Err(Error::Unmapped);
        },
    };
    let ghost s = bytes@;
    let mut chk: u8 = 0;
    let mut i: usize = 0;
    while i < size
        invariant
            s == bytes@,
            s.len() == size,
            i <= size,
            chk as int == byte_sum(s.take(i as int)) % 256,
        decreases size - i,
    {
        proof {
            assert(s.take(i + 1).drop_last() =~= s.take(i as int));
        }
        chk = chk.wrapping_add(bytes[i]);
        i = i + 1;
    }
    assert(s.take(size as int) =~= s);
    if chk == 0 {
        Ok(())
    } else {
        Err(Error::ChecksumMismatch(typ))
    }
}

/// The byte sum changes by the difference when one byte is replaced
proof fn lemma_byte_sum_update(s: Seq<u8>, i: int, v: u8)
    requires
        0 <= i < s.len(),
    ensures
        byte_sum(s.update(i, v)) == byte_sum(s) - s[i] + v,
    decreases s.len(),
{
    let t = s.update(i, v);
    if i == s.len() - 1 {
        assert(t.drop_last() =~= s.drop_last());
    } else {
        lemma_byte_sum_update(s.drop_last(), i, v);
        assert(t.drop_last() =~= s.drop_last().update(i, v));
    }
}

/// A span of bytes that sums to zero modulo 256 stops doing so when any one
/// byte is changed to another value
pub proof fn lemma_checksum_detects_one_byte(s: Seq<u8>, i: int, v: u8)
    requires
        byte_sum(s) % 256 == 0,
        0 <= i < s.len(),
        v != s[i],
    ensures
        byte_sum(s.update(i, v)) % 256 != 0,
{
    lemma_byte_sum_update(s, i, v);
}

/// The signature of the root pointer: "RSD PTR "
pub open spec fn rsdp_signature() -> Seq<u8> {
    seq![0x52u8, 0x53u8, 0x44u8, 0x20u8, 0x50u8, 0x54u8, 0x52u8, 0x20u8]
}

/// Root pointer structure of the first table revision: the fields read
#[derive(Debug, Clone, Copy)]
struct Rsdp {
    /// Revision of the structure
    revision: u8,

    /// 32-bit physical address of the root table
    rsdt_addr: u32,
}

/// The outcome of loading the root pointer at `addr`: its revision and the
/// 32-bit address of the root table
pub open spec fn rsdp_result(mem: PhysMemory, addr: int) -> Result<(u8, u32), Error> {
    match checksum_result(mem, addr, RSDP_SIZE as int, TableType::Rsdp) {
        Err(e) => Err(e),
        Ok(()) => if mem.bytes_at(addr, 8) != rsdp_signature() {
            Err(Error::SignatureMismatch(TableType::Rsdp))
        } else {
            let b = mem.bytes_at(addr, RSDP_SIZE as int);
            Ok((b[15], le_bytes(b.subrange(16, 20)) as u32))
        },
    }
}

impl Rsdp {
    /// Load and validate the root pointer at `addr`: checksum, then
    /// signature
    fn from_addr(mem: &PhysMemory, addr: PhysAddr) -> (r: Result<Rsdp, Error>)
        requires
            mem.wf(),
        ensures
            match r {
                Ok(p) => rsdp_result(*mem, addr.0 as int) == Ok::<(u8, u32), Error>((p.revision, p.rsdt_addr)),
                Err(e) => rsdp_result(*mem, addr.0 as int) == Err::<(u8, u32), Error>(e),
            },
    {
        checksum(mem, addr, RSDP_SIZE, TableType::Rsdp)?;
        let b = match mem.read_bytes(addr, RSDP_SIZE) {
            Some(b) => b,
            None => {
                return Err(Error::Unmapped);
            },
        };
        let ghost s = mem.bytes_at(addr.0 as int, RSDP_SIZE as int);
        proof {
            assert(mem.bytes_at(addr.0 as int, 8) =~= s.subrange(0, 8));
        }
        let sig = b[0] == 0x52 && b[1] == 0x53 && b[2] == 0x44 && b[3] == 0x20 && b[4] == 0x50
            && b[5] == 0x54 && b[6] == 0x52 && b[7] == 0x20;
        if !sig {
            proof {
                if s.subrange(0, 8) == rsdp_signature() {
                    assert(s.subrange(0, 8)[0] == s[0]);
                    assert(s[0] == 0x52 && s[1] == 0x53 && s[2] == 0x44 && s[3] == 0x20 && s[4] == 0x50
                        && s[5] == 0x54 && s[6] == 0x52 && s[7] == 0x20) by {
                        assert(s.subrange(0, 8)[1] == s[1]);
                        assert(s.subrange(0, 8)[2] == s[2]);
                        assert(s.subrange(0, 8)[3] == s[3]);
                        assert(s.subrange(0, 8)[4] == s[4]);
                        assert(s.subrange(0, 8)[5] == s[5]);
                        assert(s.subrange(0, 8)[6] == s[6]);
                        assert(s.subrange(0, 8)[7] == s[7]);
                    }
                }
            }
            return Err(Error::SignatureMismatch(TableType::Rsdp));
        }
        proof {
            assert(s.subrange(0, 8) =~= rsdp_signature());
        }
        let rsdt_addr = le_at(b.as_slice(), 16, 4) as u32;
        Ok(Rsdp { revision: b[15], rsdt_addr })
    }
}

/// Extended root pointer structure: the fields read
#[derive(Debug, Clone, Copy)]
struct RsdpExtended {
    /// Base level root pointer
    base: Rsdp,

    /// 64-bit physical address of the table list
    xsdt_addr: u64,
}

/// The outcome of loading the extended root pointer at `addr`: the address
/// of the table list
pub open spec fn rsdp_extended_result(mem: PhysMemory, addr: int) -> Result<u64, Error> {
    match rsdp_result(mem, addr) {
        Err(e) => Err(e),
        Ok((rev, _)) => if rev < 2 {
            Err(Error::RevisionTooOld)
        } else {
            match checksum_result(mem, addr, RSDP_EXTENDED_SIZE as int, TableType::Rsdp) {
                Err(e) => Err(e),
                Ok(()) => {
                    let b = mem.bytes_at(addr, RSDP_EXTENDED_SIZE as int);
                    if le_bytes(b.subrange(20, 24)) != RSDP_EXTENDED_SIZE {
                        Err(Error::LengthMismatch(TableType::RsdpExtended))
                    } else {
                        Ok(le_bytes(b.subrange(24, 32)) as u64)
                    }
                },
            }
        },
    }
}

impl RsdpExtended {
    /// Load and validate the extended root pointer at `addr`: the base
    /// structure, the revision, the checksum over the whole structure, and
    /// its length
    fn from_addr(mem: &PhysMemory, addr: PhysAddr) -> (r: Result<RsdpExtended, Error>)
        requires
            mem.wf(),
        ensures
            match r {
                Ok(p) => rsdp_extended_result(*mem, addr.0 as int) == Ok::<u64, Error>(p.xsdt_addr)
                    && rsdp_result(*mem, addr.0 as int) == Ok::<(u8, u32), Error>((p.base.revision, p.base.rsdt_addr)),
                Err(e) => rsdp_extended_result(*mem, addr.0 as int) == Err::<u64, Error>(e),
            },
    {
        let rsdp = Rsdp::from_addr(mem, addr)?;
        if rsdp.revision < 2 {
            return Err(Error::RevisionTooOld);
        }
        checksum(mem, addr, RSDP_EXTENDED_SIZE, TableType::Rsdp)?;
        let b = match mem.read_bytes(addr, RSDP_EXTENDED_SIZE) {
            Some(b) => b,
            None => {
                return Err(Error::Unmapped);
            },
        };
        let length = le_at(b.as_slice(), 20, 4);
        if length != RSDP_EXTENDED_SIZE as u64 {
            return Err(Error::LengthMismatch(TableType::RsdpExtended));
        }
        let xsdt_addr = le_at(b.as_slice(), 24, 8);
        Ok(RsdpExtended { base: rsdp, xsdt_addr })
    }
}

/// A table that starts with the standard 36-byte header
struct Table;

/// The outcome of loading the table header at `addr`: the table's type,
/// and the address and size of its payload
pub open spec fn header_result(mem: PhysMemory, addr: int) -> Result<(TableType, int, int), Error> {
    if !mem.mapped(addr, TABLE_HEADER_SIZE as int) {
        Err(Error::Unmapped)
    } else {
        let h = mem.bytes_at(addr, TABLE_HEADER_SIZE as int);
        let typ = table_type_of(h.subrange(0, 4));
        let len = le_bytes(h.subrange(4, 8)) as int;
        match checksum_result(mem, addr, len, typ) {
            Err(e) => Err(e),
            Ok(()) => if len < TABLE_HEADER_SIZE {
                Err(Error::LengthMismatch(typ))
            } else if addr + TABLE_HEADER_SIZE > u64::MAX {
                Err(Error::IntegerOverflow)
            } else {
                Ok((typ, addr + TABLE_HEADER_SIZE, len - TABLE_HEADER_SIZE))
            },
        }
    }
}

impl Table {
    /// Load a table with the standard header at `addr`, validating its
    /// checksum over the whole declared length. Returns the table's type,
    /// and the address and size of its payload.
    fn from_addr(mem: &PhysMemory, addr: PhysAddr) -> (r: Result<(TableType, PhysAddr, usize), Error>)
        requires
            mem.wf(),
        ensures
            match r {
                Ok((typ, pa, ps)) => header_result(*mem, addr.0 as int) == Ok::<(TableType, int, int), Error>(
                    (typ, pa.0 as int, ps as int)) && mem.mapped(pa.0 as int, ps as int),
                Err(e) => header_result(*mem, addr.0 as int) == Err::<(TableType, int, int), Error>(e),
            },
    {
        let h = match mem.read_bytes(addr, TABLE_HEADER_SIZE) {
            Some(h) => h,
            None => {
                return Err(Error::Unmapped);
            },
        };
        let typ = table_type_at(h.as_slice(), 0);
        let length = le_at(h.as_slice(), 4, 4);
        proof {
            crate::physmem::lemma_le_bytes_bound(h@.subrange(4, 8));
            crate::physmem::lemma_pow256_8();
        }
        checksum(mem, addr, length as usize, typ)?;
        if length < TABLE_HEADER_SIZE as u64 {
            return Err(Error::LengthMismatch(typ));
        }
        let payload_size = length as usize - TABLE_HEADER_SIZE;
        let payload_addr = match addr.0.checked_add(TABLE_HEADER_SIZE as u64) {
            Some(a) => PhysAddr(a),
            None => {
                return Err(Error::IntegerOverflow);
            },
        };
        Ok((typ, payload_addr, payload_size))
    }
}

/// Processor Local APIC structure
#[derive(Debug, Clone, Copy, PartialEq, Eq, Structural)]
pub struct LocalApic {
    /// Processor UID the namespace associates with this structure
    pub acpi_processor_uid: u8,

    /// The processor's local APIC ID
    pub apic_id: u8,

    /// Local APIC flags. Bit 0: enabled; bit 1: online capable
    pub flags: u32,
}

/// Processor Local x2APIC structure
#[derive(Debug, Clone, Copy, PartialEq, Eq, Structural)]
pub struct LocalX2Apic {
    /// Reserved, must be zero
    pub reserved: u16,

    /// The processor's local x2APIC ID
    pub x2apic_id: u32,

    /// Same as the local APIC flags
    pub flags: u32,

    /// Processor UID the namespace associates with this structure
    pub acpi_processor_uid: u32,
}

/// Size of the payload of a local APIC structure
pub const LOCAL_APIC_SIZE: usize = 6;

/// Size of the payload of a local x2APIC structure
pub const LOCAL_X2APIC_SIZE: usize = 14;

/// The local APIC structure whose payload is `b`
pub open spec fn local_apic_of(b: Seq<u8>) -> LocalApic {
    LocalApic { acpi_processor_uid: b[0], apic_id: b[1], flags: le_bytes(b.subrange(2, 6)) as u32 }
}

/// The local x2APIC structure whose payload is `b`
pub open spec fn local_x2apic_of(b: Seq<u8>) -> LocalX2Apic {
    LocalX2Apic {
        reserved: le_bytes(b.subrange(0, 2)) as u16,
        x2apic_id: le_bytes(b.subrange(2, 6)) as u32,
        flags: le_bytes(b.subrange(6, 10)) as u32,
        acpi_processor_uid: le_bytes(b.subrange(10, 14)) as u32,
    }
}

/// The interrupt controller structures `b` hold, after those already found
pub open spec fn madt_entries(b: Seq<u8>, apics: Seq<LocalApic>, x2apics: Seq<LocalX2Apic>) -> Result<
    (Seq<LocalApic>, Seq<LocalX2Apic>),
    Error,
>
    decreases b.len(),
{
    let e = Error::LengthMismatch(TableType::Madt);
    if b.len() == 0 {
        Ok((apics, x2apics))
    } else if b.len() < 2 || b[1] < 2 {
        Err(e)
    } else {
        let len = b[1] - 2;
        let rest = b.subrange(2, b.len() as int);
        if b[0] == 0 {
            if len != LOCAL_APIC_SIZE || rest.len() < LOCAL_APIC_SIZE {
                Err(e)
            } else if apics.len() >= MAX_CORES {
                Err(Error::TooManyApics)
            } else {
                madt_entries(
                    rest.subrange(LOCAL_APIC_SIZE as int, rest.len() as int),
                    apics.push(local_apic_of(rest.subrange(0, LOCAL_APIC_SIZE as int))),
                    x2apics,
                )
            }
        } else if b[0] == 9 {
            if len != LOCAL_X2APIC_SIZE || rest.len() < LOCAL_X2APIC_SIZE {
                Err(e)
            } else if x2apics.len() >= MAX_CORES {
                Err(Error::TooManyX2Apics)
            } else {
                madt_entries(
                    rest.subrange(LOCAL_X2APIC_SIZE as int, rest.len() as int),
                    apics,
                    x2apics.push(local_x2apic_of(rest.subrange(0, LOCAL_X2APIC_SIZE as int))),
                )
            }
        } else if rest.len() < len {
            Err(e)
        } else {
            madt_entries(rest.subrange(len as int, rest.len() as int), apics, x2apics)
        }
    }
}

/// The processors that MADT payload `b` describes: an 8-byte header (the
/// local APIC address and flags), then interrupt controller structures
pub open spec fn madt_result(b: Seq<u8>) -> Result<(Seq<LocalApic>, Seq<LocalX2Apic>), Error> {
    if b.len() < 8 {
        Err(Error::LengthMismatch(TableType::Madt))
    } else {
        madt_entries(b.subrange(8, b.len() as int), Seq::empty(), Seq::empty())
    }
}

/// The Multiple APIC Description Table: the processors it lists
#[derive(Debug)]
pub struct Madt {
    /// Local APICs, in table order
    apics: Vec<LocalApic>,

    /// Local x2APICs, in table order
    x2apics: Vec<LocalX2Apic>,
}

impl View for Madt {
    type V = (Seq<LocalApic>, Seq<LocalX2Apic>);

    closed spec fn view(&self) -> (Seq<LocalApic>, Seq<LocalX2Apic>) {
        (self.apics@, self.x2apics@)
    }
}

proof fn lemma_le_one(s: Seq<u8>)
    requires
        s.len() == 1,
    ensures
        le_bytes(s) == s[0],
{
    reveal_with_fuel(le_bytes, 2);
}

/// Reading `k` more bytes of a mapped span moves the window along it
proof fn lemma_bytes_advance(mem: PhysMemory, a: int, n: int, k: int)
    requires
        mem.mapped(a, n),
        0 <= k <= n,
    ensures
        mem.bytes_at(a, n).subrange(k, n) == mem.bytes_at(a + k, n - k),
        mem.bytes_at(a, n).subrange(0, k) == mem.bytes_at(a, k),
        mem.mapped(a + k, n - k),
{
    assert(mem.bytes_at(a, n).subrange(k, n) =~= mem.bytes_at(a + k, n - k));
    assert(mem.bytes_at(a, n).subrange(0, k) =~= mem.bytes_at(a, k));
}

impl Madt {
    /// At most `MAX_CORES` processors of each kind
    #[verifier::type_invariant]
    spec fn wf(&self) -> bool {
        self.apics@.len() <= MAX_CORES && self.x2apics@.len() <= MAX_CORES
    }

    /// The local APICs found, in table order
    pub fn apics(&self) -> (r: &[LocalApic])
        ensures
            r@ == self@.0,
    {
        self.apics.as_slice()
    }

    /// The local x2APICs found, in table order
    pub fn x2apics(&self) -> (r: &[LocalX2Apic])
        ensures
            r@ == self@.1,
    {
        self.x2apics.as_slice()
    }

    /// Number of processors found, of both kinds
    pub fn count(&self) -> (r: usize)
        ensures
            r == self@.0.len() + self@.1.len(),
    {
        proof {
            use_type_invariant(self);
        }
        self.apics.len() + self.x2apics.len()
    }

    /// Parse the payload of a MADT: the `size` bytes at `addr`
    pub fn from_addr(mem: &PhysMemory, addr: PhysAddr, size: usize) -> (r: Result<Madt, Error>)
        requires
            mem.wf(),
            mem.mapped(addr.0 as int, size as int),
        ensures
            match r {
                Ok(m) => madt_result(mem.bytes_at(addr.0 as int, size as int)) == Ok::<
                    (Seq<LocalApic>, Seq<LocalX2Apic>),
                    Error,
                >(m@),
                Err(e) => madt_result(mem.bytes_at(addr.0 as int, size as int)) == Err::<
                    (Seq<LocalApic>, Seq<LocalX2Apic>),
                    Error,
                >(e),
            },
    {
        let ghost all = mem.bytes_at(addr.0 as int, size as int);
        let mut slice = PhysSlice::new(addr, size);

        // The local APIC address and the APIC flags are not needed
        if slice.discard(8).is_err() {
            return Err(Error::LengthMismatch(TableType::Madt));
        }
        proof {
            lemma_bytes_advance(*mem, addr.0 as int, size as int, 8);
        }

        let mut apics: Vec<LocalApic> = Vec::new();
        let mut x2apics: Vec<LocalX2Apic> = Vec::new();
        while slice.len() > 0
            invariant
                all == mem.bytes_at(addr.0 as int, size as int),
                mem.wf(),
                slice.wf(),
                mem.mapped(slice.start(), slice.remaining()),
                apics@.len() <= MAX_CORES,
                x2apics@.len() <= MAX_CORES,
                madt_result(all) == madt_entries(mem.bytes_at(slice.start(), slice.remaining()), apics@, x2apics@),
            decreases slice.remaining(),
        {
            let ghost b = mem.bytes_at(slice.start(), slice.remaining());
            let ghost st = slice.start();
            let ghost n = slice.remaining();
            proof {
                lemma_bytes_advance(*mem, st, n, 1);
                lemma_le_one(mem.bytes_at(st, 1));
            }
            // The structure header: type, then length including the header
            let typ = match slice.consume_le(mem, 1) {
                Ok(v) => v as u8,
                Err(_) => {
                    return Err(Error::LengthMismatch(TableType::Madt));
                },
            };
            proof {
                assert(mem.bytes_at(st, 1)[0] == b[0]);
                assert(typ == b[0]);
            }
            proof {
                if n >= 2 {
                    lemma_bytes_advance(*mem, st, n, 2);
                    lemma_bytes_advance(*mem, st + 1, n - 1, 1);
                    lemma_le_one(mem.bytes_at(st + 1, 1));
                    assert(mem.bytes_at(st + 1, 1)[0] == b[1]);
                }
            }
            let raw_len = match slice.consume_le(mem, 1) {
                Ok(v) => v as u8,
                Err(_) => {
                    proof {
                        assert(b.len() == 1);
                    }
                    return Err(Error::LengthMismatch(TableType::Madt));
                },
            };
            proof {
                assert(raw_len == b[1]);
            }
            if raw_len < 2 {
                return Err(Error::LengthMismatch(TableType::Madt));
            }
            let len = raw_len - 2;
            let ghost rest = b.subrange(2, n);
            proof {
                assert(mem.bytes_at(slice.start(), slice.remaining()) =~= rest);
            }
            if typ == 0 {
                if len as usize != LOCAL_APIC_SIZE {
                    return Err(Error::LengthMismatch(TableType::Madt));
                }
                let data = match slice.consume(mem, LOCAL_APIC_SIZE) {
                    Ok(d) => d,
                    Err(_) => {
                        return Err(Error::LengthMismatch(TableType::Madt));
                    },
                };
                if apics.len() >= MAX_CORES {
                    return Err(Error::TooManyApics);
                }
                let apic = LocalApic {
                    acpi_processor_uid: data[0],
                    apic_id: data[1],
                    flags: le_at(data.as_slice(), 2, 4) as u32,
                };
                proof {
                    lemma_bytes_advance(*mem, st + 2, n - 2, LOCAL_APIC_SIZE as int);
                    assert(data@ =~= rest.subrange(0, LOCAL_APIC_SIZE as int));
                    assert(rest.subrange(LOCAL_APIC_SIZE as int, rest.len() as int) =~= mem.bytes_at(
                        slice.start(), slice.remaining()));
                }
                apics.push(apic);
            } else if typ == 9 {
                if len as usize != LOCAL_X2APIC_SIZE {
                    return Err(Error::LengthMismatch(TableType::Madt));
                }
                let data = match slice.consume(mem, LOCAL_X2APIC_SIZE) {
                    Ok(d) => d,
                    Err(_) => {
                        return Err(Error::LengthMismatch(TableType::Madt));
                    },
                };
                if x2apics.len() >= MAX_CORES {
                    return Err(Error::TooManyX2Apics);
                }
                let x2apic = LocalX2Apic {
                    reserved: le_at(data.as_slice(), 0, 2) as u16,
                    x2apic_id: le_at(data.as_slice(), 2, 4) as u32,
                    flags: le_at(data.as_slice(), 6, 4) as u32,
                    acpi_processor_uid: le_at(data.as_slice(), 10, 4) as u32,
                };
                proof {
                    lemma_bytes_advance(*mem, st + 2, n - 2, LOCAL_X2APIC_SIZE as int);
                    assert(data@ =~= rest.subrange(0, LOCAL_X2APIC_SIZE as int));
                    assert(rest.subrange(LOCAL_X2APIC_SIZE as int, rest.len() as int) =~= mem.bytes_at(
                        slice.start(), slice.remaining()));
                }
                x2apics.push(x2apic);
            } else {
                // Unknown structure type: skip its payload
                if slice.discard(len as usize).is_err() {
                    return Err(Error::LengthMismatch(TableType::Madt));
                }
                proof {
                    lemma_bytes_advance(*mem, st + 2, n - 2, len as int);
                    assert(rest.subrange(len as int, rest.len() as int) =~= mem.bytes_at(
                        slice.start(), slice.remaining()));
                }
            }
        }
        proof {
            assert(mem.bytes_at(slice.start(), 0) =~= Seq::<u8>::empty());
        }
        Ok(Madt { apics, x2apics })
    }
}

/// The Serial Port Console Redirection table: the console it describes
#[derive(Debug, Clone, Copy, PartialEq, Eq, Structural)]
pub struct Spcr {
    /// Type of the serial port register interface
    pub interface_type: Interface,

    /// Address to access the serial port
    pub address: Gas,

    /// Baud rate to use for the serial port
    pub baud_rate: BaudRate,
}

/// The baud rate raw value `v` names, if it names one
pub open spec fn baud_of(v: u8) -> Option<BaudRate> {
    if v == 0 {
        Some(BaudRate::AsIs)
    } else if v == 3 {
        Some(BaudRate::Baud9600)
    } else if v == 4 {
        Some(BaudRate::Baud19200)
    } else if v == 6 {
        Some(BaudRate::Baud57600)
    } else if v == 7 {
        Some(BaudRate::Baud115200)
    } else {
        None
    }
}

/// The console that SPCR payload `b` describes: interface type, 3 reserved
/// bytes, a 12-byte generic access structure, interrupt type, IRQ, a 4-byte
/// interrupt vector, then baud rate, parity and stop bits
pub open spec fn spcr_result(b: Seq<u8>) -> Result<Spcr, Error> {
    let e = Error::LengthMismatch(TableType::Spcr);
    if b.len() < 23 {
        Err(e)
    } else {
        match baud_of(b[22]) {
            None => Err(Error::InvalidBaudRate),
            Some(baud_rate) => if b.len() < 25 {
                Err(e)
            } else if b[23] != 0 {
                Err(Error::InvalidParityBits)
            } else if b[24] != 1 {
                Err(Error::InvalidStopBits)
            } else {
                Ok(Spcr { interface_type: interface_of(b[0]), address: gas_of(b.subrange(4, 16)), baud_rate })
            },
        }
    }
}

/// Read one byte at the front of the slice
fn take_byte(slice: &mut PhysSlice, mem: &PhysMemory) -> (r: Result<u8, ()>)
    requires
        old(slice).wf(),
        mem.wf(),
        mem.mapped(old(slice).start(), old(slice).remaining()),
    ensures
        final(slice).wf(),
        r is Ok <==> old(slice).remaining() >= 1,
        r matches Ok(v) ==> v == mem.bytes_at(old(slice).start(), old(slice).remaining())[0]
            && final(slice).start() == old(slice).start() + 1
            && final(slice).remaining() == old(slice).remaining() - 1,
{
    proof {
        if old(slice).remaining() >= 1 {
            lemma_bytes_advance(*mem, old(slice).start(), old(slice).remaining(), 1);
            lemma_le_one(mem.bytes_at(old(slice).start(), 1));
        }
    }
    match slice.consume_le(mem, 1) {
        Ok(v) => Ok(v as u8),
        Err(()) => Err(()),
    }
}

impl Spcr {
    /// Parse the payload of an SPCR: the `size` bytes at `addr`
    pub fn from_addr(mem: &PhysMemory, addr: PhysAddr, size: usize) -> (r: Result<Spcr, Error>)
        requires
            mem.wf(),
            mem.mapped(addr.0 as int, size as int),
        ensures
            match r {
                Ok(s) => spcr_result(mem.bytes_at(addr.0 as int, size as int)) == Ok::<Spcr, Error>(s),
                Err(e) => spcr_result(mem.bytes_at(addr.0 as int, size as int)) == Err::<Spcr, Error>(e),
            },
    {
        let e = Error::LengthMismatch(TableType::Spcr);
        let ghost all = mem.bytes_at(addr.0 as int, size as int);
        let ghost a = addr.0 as int;
        let mut slice = PhysSlice::new(addr, size);

        // Serial interface type
        let typ = match take_byte(&mut slice, mem) {
            Ok(v) => Interface::from(v),
            Err(()) => {
                return Err(e);
            },
        };
        proof {
            assert(typ == interface_of(all[0]));
            lemma_bytes_advance(*mem, a, size as int, 1);
        }

        // Reserved (3 bytes)
        if slice.discard(3).is_err() {
            return Err(e);
        }
        proof {
            lemma_bytes_advance(*mem, a, size as int, 4);
        }

        // The generic address structure
        let raw = match slice.consume(mem, 12) {
            Ok(v) => v,
            Err(()) => {
                return Err(e);
            },
        };
        let info = Gas::from_bytes(raw.as_slice());
        proof {
            lemma_bytes_advance(*mem, a, size as int, 16);
            assert(raw@ =~= all.subrange(4, 16));
        }

        // Interrupt type, IRQ and global system interrupt, not needed
        if slice.discard(1).is_err() || slice.discard(1).is_err() || slice.discard(4).is_err() {
            return Err(e);
        }
        proof {
            lemma_bytes_advance(*mem, a, size as int, 22);
        }

        // Baud rate
        let raw_baud = match take_byte(&mut slice, mem) {
            Ok(v) => v,
            Err(()) => {
                return Err(e);
            },
        };
        proof {
            assert(raw_baud == all[22]);
        }
        let baud_rate = match raw_baud {
            0 => BaudRate::AsIs,
            3 => BaudRate::Baud9600,
            4 => BaudRate::Baud19200,
            6 => BaudRate::Baud57600,
            7 => BaudRate::Baud115200,
            _ => {
                return Err(Error::InvalidBaudRate);
            },
        };
        proof {
            lemma_bytes_advance(*mem, a, size as int, 23);
        }

        // Parity and stop bits
        let parity_bits = match take_byte(&mut slice, mem) {
            Ok(v) => v,
            Err(()) => {
                return Err(e);
            },
        };
        proof {
            if size >= 24 {
                lemma_bytes_advance(*mem, a, size as int, 24);
            }
        }
        let stop_bits = match take_byte(&mut slice, mem) {
            Ok(v) => v,
            Err(()) => {
                return Err(e);
            },
        };
        proof {
            assert(parity_bits == all[23]);
            assert(stop_bits == all[24]);
        }

        // Only no parity and one stop bit are defined
        if parity_bits != 0 {
            return Err(Error::InvalidParityBits);
        }
        if stop_bits != 1 {
            return Err(Error::InvalidStopBits);
        }
        Ok(Spcr { interface_type: typ, address: info, baud_rate })
    }
}

/// Firmware quirk: a plain 16550 whose I/O-space register access size is
/// given as undefined is byte-accessed
pub open spec fn console_quirk(s: Spcr) -> Spcr {
    match s.address {
        Gas::Io { addr, register_width, register_offset, access_size } =>
            if s.interface_type == Interface::Serial16550 && access_size == AccessSize::Undefined {
                Spcr {
                    address: Gas::Io { addr, register_width, register_offset, access_size: AccessSize::Byte },
                    ..s
                }
            } else {
                s
            },
        _ => s,
    }
}

/// Apply the firmware quirk for 16550 consoles: an undefined access size on
/// an I/O-space register block is taken to be byte access
pub fn apply_console_quirk(spcr: Spcr) -> (r: Spcr)
    ensures
        r == console_quirk(spcr),
{
    match spcr.address {
        Gas::Io { addr, register_width, register_offset, access_size } => {
            if spcr.interface_type == Interface::Serial16550 && access_size == AccessSize::Undefined {
                Spcr {
                    interface_type: spcr.interface_type,
                    address: Gas::Io { addr, register_width, register_offset, access_size: AccessSize::Byte },
                    baud_rate: spcr.baud_rate,
                }
            } else {
                spcr
            }
        },
        _ => spcr,
    }
}

/// What the tables yield: the processors, if a MADT was found, and the
/// console, if an SPCR was found
pub type AcpiView = (Option<(Seq<LocalApic>, Seq<LocalX2Apic>)>, Option<Spcr>);

/// Walk table list entries `i` to `n - 1`, the list's payload starting at
/// `xsdt`, after `found` came out of the earlier entries. A later table of a
/// kind replaces an earlier one.
pub open spec fn walk_tables(mem: PhysMemory, xsdt: int, n: int, i: int, found: AcpiView) -> Result<AcpiView, Error>
    decreases n - i,
{
    if i >= n {
        Ok(found)
    } else {
        let ea = xsdt + 8 * i;
        if ea > u64::MAX {
            Err(Error::IntegerOverflow)
        } else if !mem.mapped(ea, 8) {
            Err(Error::Unmapped)
        } else {
            match header_result(mem, le_bytes(mem.bytes_at(ea, 8)) as int) {
                Err(e) => Err(e),
                Ok((typ, pa, ps)) => match typ {
                    TableType::Madt => match madt_result(mem.bytes_at(pa, ps)) {
                        Err(e) => Err(e),
                        Ok(m) => walk_tables(mem, xsdt, n, i + 1, (Some(m), found.1)),
                    },
                    TableType::Spcr => match spcr_result(mem.bytes_at(pa, ps)) {
                        Err(e) => Err(e),
                        Ok(c) => walk_tables(mem, xsdt, n, i + 1, (found.0, Some(console_quirk(c)))),
                    },
                    _ => walk_tables(mem, xsdt, n, i + 1, found),
                },
            }
        }
    }
}

/// The outcome of the whole pipeline on memory `mem`, with the root pointer
/// the firmware reported
pub open spec fn acpi_result(mem: PhysMemory, root: Option<PhysAddr>) -> Result<AcpiView, Error> {
    match root {
        None => Err(Error::RootNotFound),
        Some(a) => match rsdp_extended_result(mem, a.0 as int) {
            Err(e) => Err(e),
            Ok(x) => match header_result(mem, x as int) {
                Err(e) => Err(e),
                Ok((typ, pa, ps)) => if typ != TableType::Xsdt {
                    Err(Error::SignatureMismatch(TableType::Xsdt))
                } else if ps % 8 != 0 {
                    Err(Error::XsdtBadEntries)
                } else {
                    walk_tables(mem, pa, ps / 8, 0, (None, None))
                },
            },
        },
    }
}

/// Information parsed out of the tables
#[derive(Debug)]
pub struct Acpi {
    /// The processors, from the MADT
    pub madt: Option<Madt>,

    /// The console, from the SPCR
    pub spcr: Option<Spcr>,
}

impl View for Acpi {
    type V = AcpiView;

    open spec fn view(&self) -> AcpiView {
        (
            match self.madt {
                Some(m) => Some(m@),
                None => None,
            },
            self.spcr,
        )
    }
}

/// Run the table pipeline over memory `mem`, starting from the root pointer
/// at `root` as the firmware reported it: validate the root and extended
/// root, then the table list, then each table it lists, parsing the MADT and
/// the SPCR. All or nothing: any error ends the walk.
pub fn init(mem: &PhysMemory, root: Option<PhysAddr>) -> (r: Result<Acpi, Error>)
    requires
        mem.wf(),
    ensures
        match r {
            Ok(a) => acpi_result(*mem, root) == Ok::<AcpiView, Error>(a@),
            Err(e) => acpi_result(*mem, root) == Err::<AcpiView, Error>(e),
        },
{
    let rsdp_addr = match root {
        Some(a) => a,
        None => {
            return Err(Error::RootNotFound);
        },
    };

    // Validate and get the extended root pointer
    let rsdp = RsdpExtended::from_addr(mem, rsdp_addr)?;

    // Get the table list
    let (typ, xsdt, len) = Table::from_addr(mem, PhysAddr(rsdp.xsdt_addr))?;
    if !matches!(typ, TableType::Xsdt) {
        return Err(Error::SignatureMismatch(TableType::Xsdt));
    }

    // The list holds 64-bit table addresses
    if len % 8 != 0 {
        return Err(Error::XsdtBadEntries);
    }
    let entries = len / 8;

    let mut ret = Acpi { madt: None, spcr: None };
    let mut idx: usize = 0;
    while idx < entries
        invariant
            mem.wf(),
            mem.mapped(xsdt.0 as int, len as int),
            entries == len / 8,
            idx <= entries,
            acpi_result(*mem, root) == walk_tables(*mem, xsdt.0 as int, entries as int, idx as int, ret@),
        decreases entries - idx,
    {
        // Address of the entry; firmware may leave it unaligned
        let entry_addr = match (idx as u64).checked_mul(8) {
            Some(x) => x.checked_add(xsdt.0),
            None => None,
        };
        let entry_addr = match entry_addr {
            Some(a) => a,
            None => {
                return Err(Error::IntegerOverflow);
            },
        };
        let table_addr = match mem.read_le(PhysAddr(entry_addr), 8) {
            Some(a) => a,
            None => {
                return Err(Error::Unmapped);
            },
        };

        // Parse and validate the table header
        let (typ, data, dlen) = Table::from_addr(mem, PhysAddr(table_addr))?;
        match typ {
            TableType::Madt => {
                let madt = Madt::from_addr(mem, data, dlen)?;
                ret.madt = Some(madt);
            },
            TableType::Spcr => {
                let spcr = Spcr::from_addr(mem, data, dlen)?;
                ret.spcr = Some(apply_console_quirk(spcr));
            },
            _ => {},
        }
        idx = idx + 1;
    }
    Ok(ret)
}

/// A root pointer whose first 20 bytes sum to zero modulo 256 and whose
/// signature matches validates; changing any one of those bytes to another
/// value without correcting the checksum makes it fail with a checksum
/// mismatch
pub proof fn lemma_rsdp_checksum(mem: PhysMemory, flipped: PhysMemory, addr: int, i: int, v: u8)
    requires
        mem.wf(),
        mem.mapped(addr, RSDP_SIZE as int),
        byte_sum(mem.bytes_at(addr, RSDP_SIZE as int)) % 256 == 0,
        mem.bytes_at(addr, 8) == rsdp_signature(),
        0 <= i < RSDP_SIZE,
        v != mem.bytes_at(addr, RSDP_SIZE as int)[i],
        flipped.base_addr() == mem.base_addr(),
        flipped.image() == mem.image().update(addr - mem.base_addr() + i, v),
    ensures
        rsdp_result(mem, addr) is Ok,
        rsdp_result(flipped, addr) == Err::<(u8, u32), Error>(Error::ChecksumMismatch(TableType::Rsdp)),
{
    let s = mem.bytes_at(addr, RSDP_SIZE as int);
    assert(flipped.bytes_at(addr, RSDP_SIZE as int) =~= s.update(i, v));
    lemma_checksum_detects_one_byte(s, i, v);
}

/// A table whose declared span sums to zero modulo 256 passes its checksum;
/// changing any one byte of it past the signature and length fields to
/// another value, without correcting the checksum, makes loading it fail
/// with a checksum mismatch tagged by the table's type
pub proof fn lemma_table_checksum(mem: PhysMemory, flipped: PhysMemory, addr: int, k: int, v: u8)
    requires
        mem.wf(),
        mem.mapped(addr, TABLE_HEADER_SIZE as int),
        mem.mapped(addr, le_bytes(mem.bytes_at(addr, 8).subrange(4, 8)) as int),
        byte_sum(mem.bytes_at(addr, le_bytes(mem.bytes_at(addr, 8).subrange(4, 8)) as int)) % 256 == 0,
        8 <= k < le_bytes(mem.bytes_at(addr, 8).subrange(4, 8)),
        v != mem.bytes_at(addr, le_bytes(mem.bytes_at(addr, 8).subrange(4, 8)) as int)[k],
        flipped.base_addr() == mem.base_addr(),
        flipped.image() == mem.image().update(addr - mem.base_addr() + k, v),
    ensures
        checksum_result(
            mem,
            addr,
            le_bytes(mem.bytes_at(addr, 8).subrange(4, 8)) as int,
            table_type_of(mem.bytes_at(addr, 4)),
        ) is Ok,
        header_result(flipped, addr) == Err::<(TableType, int, int), Error>(
            Error::ChecksumMismatch(table_type_of(mem.bytes_at(addr, 4))),
        ),
{
    let len = le_bytes(mem.bytes_at(addr, 8).subrange(4, 8)) as int;
    let s = mem.bytes_at(addr, len);
    assert(flipped.bytes_at(addr, len) =~= s.update(k, v));
    assert(flipped.bytes_at(addr, TABLE_HEADER_SIZE as int).subrange(0, 4) =~= mem.bytes_at(addr, 4));
    assert(flipped.bytes_at(addr, TABLE_HEADER_SIZE as int).subrange(4, 8) =~= mem.bytes_at(addr, 8).subrange(4, 8));
    lemma_checksum_detects_one_byte(s, k, v);
}

} // verus!
