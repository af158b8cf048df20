//! Firmware boot-services data: status codes, memory map descriptors and
//! the usable-memory model built from them, the configuration table lookup
//! of the table root pointer, and console text buffering.

use vstd::prelude::*;
use crate::physmem::{le_at, le_bytes};
use crate::rangeset::{self, covered, points, ranges_wf, representable, Range, RangeSet};

verus! {

/// Errors from firmware calls
#[derive(Debug, Clone, Copy, PartialEq, Eq, Structural)]
pub enum Error {
    /// The firmware system table has not been registered
    NotRegistered,

    /// Getting the memory map failed
    MemoryMap(EfiStatus),

    /// Exiting boot services failed
    ExitBootServices(EfiStatus),

    /// An integer overflow occurred when processing memory map data
    MemoryMapIntegerOverflow,

    /// Building the usable memory `RangeSet` failed
    MemoryRangeSet(rangeset::Error),
}

/// A handle to a collection of related interfaces
#[derive(Debug, Clone, Copy, PartialEq, Eq, Structural)]
pub struct EfiHandle(pub usize);

/// Raw firmware status code
#[derive(Debug, Clone, Copy, PartialEq, Eq, Structural)]
pub struct EfiStatusCode(pub u64);

/// Firmware status
#[derive(Debug, Clone, Copy, PartialEq, Eq, Structural)]
pub enum EfiStatus {
    /// Success
    Success,

    /// A warning (top bit clear)
    Warning(EfiWarning),

    /// An error (top bit set)
    Error(EfiError),
}

/// Firmware warning codes
#[derive(Debug, Clone, Copy, PartialEq, Eq, Structural)]
pub enum EfiWarning {
    /// The string held characters the device could not render
    UnknownGlyph,
    /// The handle was closed, but the file was not deleted
    DeleteFailure,
    /// The handle was closed, but the data to the file was not flushed
    WriteFailure,
    /// The buffer was too small, and the data was truncated
    BufferTooSmall,
    /// The data has not been updated within the timeframe set by policy
    StaleData,
    /// The buffer holds a compliant file system
    FileSystem,
    /// The operation will proceed across a system reset
    ResetRequired,
    /// An unknown warning
    Unknown(u64),
}

/// Firmware error codes
#[derive(Debug, Clone, Copy, PartialEq, Eq, Structural)]
pub enum EfiError {
    /// The image failed to load
    LoadError,
    /// A parameter was incorrect
    InvalidParameter,
    /// The operation is not supported
    Unsupported,
    /// The buffer was not the proper size for the request
    BadBufferSize,
    /// The buffer is not large enough to hold the requested data
    BufferTooSmall,
    /// There is no data pending upon return
    NotReady,
    /// The physical device reported an error
    DeviceError,
    /// The device cannot be written to
    WriteProtected,
    /// A resource has run out
    OutOfResources,
    /// An inconsistency was detected on the file system
    VolumeCorrupted,
    /// There is no more space on the file system
    VolumeFull,
    /// The device does not contain any medium
    NoMedia,
    /// The medium in the device has changed since the last access
    MediaChanged,
    /// The item was not found
    NotFound,
    /// Access was denied
    AccessDenied,
    /// The server was not found or did not respond
    NoResponse,
    /// A mapping to a device does not exist
    NoMapping,
    /// The timeout time expired
    Timeout,
    /// The protocol has not been started
    NotStarted,
    /// The protocol has already started
    AlreadyStarted,
    /// The operation was aborted
    Aborted,
    /// An ICMP error occurred during the network operation
    IcmpError,
    /// A TFTP error occurred during the network operation
    TftpError,
    /// A protocol error occurred during the network operation
    ProtocolError,
    /// An internal version was incompatible with the one requested
    IncompatibleVersion,
    /// The operation was not performed due to a security violation
    SecurityViolation,
    /// A CRC error occurred
    CrcError,
    /// Beginning or end of media was reached
    EndOfMedia,
    /// The end of the file was reached
    EndOfFile,
    /// The language specified was invalid
    InvalidLanguage,
    /// The security status of the data is unknown or compromised
    CompromisedData,
    /// There is an address conflict in address allocation
    IpAddressConflict,
    /// An HTTP error occurred during the network operation
    HttpError,
    /// An unknown error
    Unknown(u64),
}

/// The top bit of a status code, set on errors
pub const ERROR_BIT: u64 = 0x8000_0000_0000_0000;

/// The warning that `code` names; `raw` is the whole status code
pub open spec fn warning_of(code: u64, raw: u64) -> EfiWarning {
    if code == 1 {
        EfiWarning::UnknownGlyph
    } else if code == 2 {
        EfiWarning::DeleteFailure
    } else if code == 3 {
        EfiWarning::WriteFailure
    } else if code == 4 {
        EfiWarning::BufferTooSmall
    } else if code == 5 {
        EfiWarning::StaleData
    } else if code == 6 {
        EfiWarning::FileSystem
    } else if code == 7 {
        EfiWarning::ResetRequired
    } else {
        EfiWarning::Unknown(raw)
    }
}

/// The error that `code` names; `raw` is the whole status code
pub open spec fn error_of(code: u64, raw: u64) -> EfiError {
    if code == 1 { EfiError::LoadError }
    else if code == 2 { EfiError::InvalidParameter }
    else if code == 3 { EfiError::Unsupported }
    else if code == 4 { EfiError::BadBufferSize }
    else if code == 5 { EfiError::BufferTooSmall }
    else if code == 6 { EfiError::NotReady }
    else if code == 7 { EfiError::DeviceError }
    else if code == 8 { EfiError::WriteProtected }
    else if code == 9 { EfiError::OutOfResources }
    else if code == 10 { EfiError::VolumeCorrupted }
    else if code == 11 { EfiError::VolumeFull }
    else if code == 12 { EfiError::NoMedia }
    else if code == 13 { EfiError::MediaChanged }
    else if code == 14 { EfiError::NotFound }
    else if code == 15 { EfiError::AccessDenied }
    else if code == 16 { EfiError::NoResponse }
    else if code == 17 { EfiError::NoMapping }
    else if code == 18 { EfiError::Timeout }
    else if code == 19 { EfiError::NotStarted }
    else if code == 20 { EfiError::AlreadyStarted }
    else if code == 21 { EfiError::Aborted }
    else if code == 22 { EfiError::IcmpError }
    else if code == 23 { EfiError::TftpError }
    else if code == 24 { EfiError::ProtocolError }
    else if code == 25 { EfiError::IncompatibleVersion }
    else if code == 26 { EfiError::SecurityViolation }
    else if code == 27 { EfiError::CrcError }
    else if code == 28 { EfiError::EndOfMedia }
    else if code == 31 { EfiError::EndOfFile }
    else if code == 32 { EfiError::InvalidLanguage }
    else if code == 33 { EfiError::CompromisedData }
    else if code == 34 { EfiError::IpAddressConflict }
    else if code == 35 { EfiError::HttpError }
    else { EfiError::Unknown(raw) }
}

/// The status that raw code `raw` names: zero is success, a set top bit an
/// error, anything else a warning; the rest of the bits give the code
pub open spec fn status_of(raw: u64) -> EfiStatus {
    if raw == 0 {
        EfiStatus::Success
    } else if raw >= ERROR_BIT {
        EfiStatus::Error(error_of((raw - ERROR_BIT) as u64, raw))
    } else {
        EfiStatus::Warning(warning_of(raw, raw))
    }
}

fn warning_from(code: u64, raw: u64) -> (r: EfiWarning)
    ensures
        r == warning_of(code, raw),
{
    match code {
        1 => EfiWarning::UnknownGlyph,
        2 => EfiWarning::DeleteFailure,
        3 => EfiWarning::WriteFailure,
        4 => EfiWarning::BufferTooSmall,
        5 => EfiWarning::StaleData,
        6 => EfiWarning::FileSystem,
        7 => EfiWarning::ResetRequired,
        _ => EfiWarning::Unknown(raw),
    }
}

fn error_from(code: u64, raw: u64) -> (r: EfiError)
    ensures
        r == error_of(code, raw),
{
    match code {
        1 => EfiError::LoadError,
        2 => EfiError::InvalidParameter,
        3 => EfiError::Unsupported,
        4 => EfiError::BadBufferSize,
        5 => EfiError::BufferTooSmall,
        6 => EfiError::NotReady,
        7 => EfiError::DeviceError,
        8 => EfiError::WriteProtected,
        9 => EfiError::OutOfResources,
        10 => EfiError::VolumeCorrupted,
        11 => EfiError::VolumeFull,
        12 => EfiError::NoMedia,
        13 => EfiError::MediaChanged,
        14 => EfiError::NotFound,
        15 => EfiError::AccessDenied,
        16 => EfiError::NoResponse,
        17 => EfiError::NoMapping,
        18 => EfiError::Timeout,
        19 => EfiError::NotStarted,
        20 => EfiError::AlreadyStarted,
        21 => EfiError::Aborted,
        22 => EfiError::IcmpError,
        23 => EfiError::TftpError,
        24 => EfiError::ProtocolError,
        25 => EfiError::IncompatibleVersion,
        26 => EfiError::SecurityViolation,
        27 => EfiError::CrcError,
        28 => EfiError::EndOfMedia,
        31 => EfiError::EndOfFile,
        32 => EfiError::InvalidLanguage,
        33 => EfiError::CompromisedData,
        34 => EfiError::IpAddressConflict,
        35 => EfiError::HttpError,
        _ => EfiError::Unknown(raw),
    }
}

impl From<EfiStatusCode> for EfiStatus {
    fn from(val: EfiStatusCode) -> EfiStatus {
        let raw = val.0;
        if raw == 0 {
            EfiStatus::Success
        } else if raw >= ERROR_BIT {
            EfiStatus::Error(error_from(raw - ERROR_BIT, raw))
        } else {
            EfiStatus::Warning(warning_from(raw, raw))
        }
    }
}

impl vstd::std_specs::convert::FromSpecImpl<EfiStatusCode> for EfiStatus {
    open spec fn obeys_from_spec() -> bool {
        true
    }

    open spec fn from_spec(v: EfiStatusCode) -> EfiStatus {
        status_of(v.0)
    }
}

/// Memory types of the firmware memory map
#[derive(Debug, Clone, Copy, PartialEq, Eq, Structural)]
pub enum EfiMemoryType {
    /// Not usable
    ReservedMemoryType,
    /// Code of loaded applications
    LoaderCode,
    /// Data of loaded applications
    LoaderData,
    /// Code of the boot services
    BootServicesCode,
    /// Data of the boot services
    BootServicesData,
    /// Code of the runtime services
    RuntimeServicesCode,
    /// Data of the runtime services
    RuntimeServicesData,
    /// Free memory
    ConventionalMemory,
    /// Memory with errors
    UnusableMemory,
    /// Memory holding the description tables, reclaimable once read
    ACPIReclaimMemory,
    /// Memory reserved for the firmware
    ACPIMemoryNVS,
    /// Memory-mapped I/O
    MemoryMappedIO,
    /// Memory-mapped I/O port space
    MemoryMappedIOPortSpace,
    /// Processor firmware code
    PalCode,
    /// Persistent memory
    PersistentMemory,
    /// An unknown type
    Invalid,
}

/// The memory type that raw value `v` names
pub open spec fn memory_type_of(v: u32) -> EfiMemoryType {
    if v == 0 { EfiMemoryType::ReservedMemoryType }
    else if v == 1 { EfiMemoryType::LoaderCode }
    else if v == 2 { EfiMemoryType::LoaderData }
    else if v == 3 { EfiMemoryType::BootServicesCode }
    else if v == 4 { EfiMemoryType::BootServicesData }
    else if v == 5 { EfiMemoryType::RuntimeServicesCode }
    else if v == 6 { EfiMemoryType::RuntimeServicesData }
    else if v == 7 { EfiMemoryType::ConventionalMemory }
    else if v == 8 { EfiMemoryType::UnusableMemory }
    else if v == 9 { EfiMemoryType::ACPIReclaimMemory }
    else if v == 10 { EfiMemoryType::ACPIMemoryNVS }
    else if v == 11 { EfiMemoryType::MemoryMappedIO }
    else if v == 12 { EfiMemoryType::MemoryMappedIOPortSpace }
    else if v == 13 { EfiMemoryType::PalCode }
    else if v == 14 { EfiMemoryType::PersistentMemory }
    else { EfiMemoryType::Invalid }
}

impl From<u32> for EfiMemoryType {
    fn from(val: u32) -> EfiMemoryType {
        match val {
            0 => EfiMemoryType::ReservedMemoryType,
            1 => EfiMemoryType::LoaderCode,
            2 => EfiMemoryType::LoaderData,
            3 => EfiMemoryType::BootServicesCode,
            4 => EfiMemoryType::BootServicesData,
            5 => EfiMemoryType::RuntimeServicesCode,
            6 => EfiMemoryType::RuntimeServicesData,
            7 => EfiMemoryType::ConventionalMemory,
            8 => EfiMemoryType::UnusableMemory,
            9 => EfiMemoryType::ACPIReclaimMemory,
            10 => EfiMemoryType::ACPIMemoryNVS,
            11 => EfiMemoryType::MemoryMappedIO,
            12 => EfiMemoryType::MemoryMappedIOPortSpace,
            13 => EfiMemoryType::PalCode,
            14 => EfiMemoryType::PersistentMemory,
            _ => EfiMemoryType::Invalid,
        }
    }
}

impl vstd::std_specs::convert::FromSpecImpl<u32> for EfiMemoryType {
    open spec fn obeys_from_spec() -> bool {
        true
    }

    open spec fn from_spec(v: u32) -> EfiMemoryType {
        memory_type_of(v)
    }
}

impl EfiMemoryType {
    /// Memory of this type is free for general use once boot services
    /// have been exited
    pub open spec fn usable(self) -> bool {
        ||| self == EfiMemoryType::BootServicesCode
        ||| self == EfiMemoryType::BootServicesData
        ||| self == EfiMemoryType::ConventionalMemory
        ||| self == EfiMemoryType::PersistentMemory
    }

    /// Returns whether or not this memory type is available for general
    /// purpose use after boot services have been exited
    pub fn avail_post_exit_boot_services(&self) -> (r: bool)
        ensures
            r == self.usable(),
    {
        match self {
            EfiMemoryType::BootServicesCode | EfiMemoryType::BootServicesData
            | EfiMemoryType::ConventionalMemory | EfiMemoryType::PersistentMemory => true,
            _ => false,
        }
    }
}

/// Size of a page of the memory map
pub const PAGE_SIZE: u64 = 4096;

/// Size of the fields of a memory map descriptor
pub const MEMORY_DESCRIPTOR_SIZE: usize = 40;

/// A memory map descriptor
#[derive(Debug, Clone, Copy, PartialEq, Eq, Structural)]
pub struct EfiMemoryDescriptor {
    /// Raw memory type
    pub typ: u32,
    /// Physical address of the first byte
    pub physical_start: u64,
    /// Virtual address of the first byte
    pub virtual_start: u64,
    /// Number of pages
    pub number_of_pages: u64,
    /// Attributes of the region
    pub attribute: u64,
}

/// The descriptor the 40 bytes `b` hold: type, 4 bytes of padding, physical
/// start, virtual start, page count, attributes, all little-endian
pub open spec fn descriptor_of(b: Seq<u8>) -> EfiMemoryDescriptor {
    EfiMemoryDescriptor {
        typ: le_bytes(b.subrange(0, 4)) as u32,
        physical_start: le_bytes(b.subrange(8, 16)) as u64,
        virtual_start: le_bytes(b.subrange(16, 24)) as u64,
        number_of_pages: le_bytes(b.subrange(24, 32)) as u64,
        attribute: le_bytes(b.subrange(32, 40)) as u64,
    }
}

/// Number of whole descriptors in a map of `len` bytes with a stride of
/// `desc_size` bytes
pub open spec fn descriptor_count(len: int, desc_size: int) -> int {
    if len < MEMORY_DESCRIPTOR_SIZE {
        0
    } else {
        (len - MEMORY_DESCRIPTOR_SIZE) / desc_size + 1
    }
}

/// Split a raw memory map into its descriptors, `desc_size` bytes apart as
/// the firmware reports; a trailing partial descriptor is ignored
pub fn parse_memory_map(map: &[u8], desc_size: usize) -> (r: Vec<EfiMemoryDescriptor>)
    requires
        desc_size >= MEMORY_DESCRIPTOR_SIZE,
    ensures
        r@.len() == descriptor_count(map@.len() as int, desc_size as int),
        forall|k: int| 0 <= k < r@.len() ==> #[trigger] r@[k] == descriptor_of(
            map@.subrange(k * desc_size, k * desc_size + MEMORY_DESCRIPTOR_SIZE)),
{
    let len = map.len();
    let count: usize = if len < MEMORY_DESCRIPTOR_SIZE {
        0
    } else {
        (len - MEMORY_DESCRIPTOR_SIZE) / desc_size + 1
    };
    let mut out: Vec<EfiMemoryDescriptor> = Vec::new();
    let mut k: usize = 0;
    while k < count
        invariant
            len == map@.len(),
            desc_size >= MEMORY_DESCRIPTOR_SIZE,
            count == descriptor_count(len as int, desc_size as int),
            k <= count,
            out@.len() == k,
            forall|j: int| 0 <= j < k ==> #[trigger] out@[j] == descriptor_of(
                map@.subrange(j * desc_size, j * desc_size + MEMORY_DESCRIPTOR_SIZE)),
        decreases count - k,
    {
        proof {
            let q = (len - MEMORY_DESCRIPTOR_SIZE) / (desc_size as int);
            assert(k <= q);
            vstd::arithmetic::div_mod::lemma_fundamental_div_mod(len - MEMORY_DESCRIPTOR_SIZE, desc_size as int);
            vstd::arithmetic::mul::lemma_mul_inequality(k as int, q, desc_size as int);
            vstd::arithmetic::div_mod::lemma_mod_pos_bound(len - MEMORY_DESCRIPTOR_SIZE, desc_size as int);
            assert(desc_size * q == q * desc_size) by (nonlinear_arith);
            assert(k * desc_size + MEMORY_DESCRIPTOR_SIZE <= len);
        }
        let off = k * desc_size;
        let ghost b = map@.subrange(off as int, off + MEMORY_DESCRIPTOR_SIZE);
        proof {
            assert(map@.subrange(off as int, off + 4) =~= b.subrange(0, 4));
            assert(map@.subrange(off + 8, off + 16) =~= b.subrange(8, 16));
            assert(map@.subrange(off + 16, off + 24) =~= b.subrange(16, 24));
            assert(map@.subrange(off + 24, off + 32) =~= b.subrange(24, 32));
            assert(map@.subrange(off + 32, off + 40) =~= b.subrange(32, 40));
            crate::physmem::lemma_le_bytes_bound(b.subrange(0, 4));
            crate::physmem::lemma_pow256_8();
        }
        let d = EfiMemoryDescriptor {
            typ: le_at(map, off, 4) as u32,
            physical_start: le_at(map, off + 8, 8),
            virtual_start: le_at(map, off + 16, 8),
            number_of_pages: le_at(map, off + 24, 8),
            attribute: le_at(map, off + 32, 8),
        };
        out.push(d);
        k = k + 1;
    }
    out
}

/// The descriptor names memory that is usable once boot services have been
/// exited, and at least one page of it
pub open spec fn desc_usable(d: EfiMemoryDescriptor) -> bool {
    memory_type_of(d.typ).usable() && d.number_of_pages > 0
}

/// Last byte of the region a descriptor covers
pub open spec fn desc_end(d: EfiMemoryDescriptor) -> int {
    d.physical_start + d.number_of_pages * PAGE_SIZE - 1
}

/// The region's size or end does not fit in 64 bits
pub open spec fn desc_overflows(d: EfiMemoryDescriptor) -> bool {
    d.number_of_pages * PAGE_SIZE > u64::MAX || desc_end(d) > u64::MAX
}

/// The addresses of usable memory that descriptors `ds` describe
pub open spec fn usable_points(ds: Seq<EfiMemoryDescriptor>) -> Set<int>
    decreases ds.len(),
{
    if ds.len() == 0 {
        Set::empty()
    } else {
        let d = ds.last();
        if desc_usable(d) {
            usable_points(ds.drop_last()).union(rangeset::interval(d.physical_start as int, desc_end(d)))
        } else {
            usable_points(ds.drop_last())
        }
    }
}

/// No descriptor before `i` that names usable memory overflows
pub open spec fn no_overflow_before(ds: Seq<EfiMemoryDescriptor>, i: int) -> bool {
    forall|j: int| 0 <= j < i && desc_usable(#[trigger] ds[j]) ==> !desc_overflows(ds[j])
}

/// The usable memory of every prefix of `ds` up to length `i` can be held
/// by a range set
pub open spec fn prefixes_fit(ds: Seq<EfiMemoryDescriptor>, i: int) -> bool {
    forall|k: int| 0 <= k <= i ==> representable(#[trigger] usable_points(ds.take(k)))
}

/// Build the usable memory model from memory map descriptors: every region
/// of a type free after boot services, of at least one page, is inserted
/// into a `RangeSet`, in order. The first descriptor that cannot be taken
/// decides the error: one whose region overflows, or one after which the
/// usable memory no longer fits a range set.
pub fn usable_memory(descs: &[EfiMemoryDescriptor]) -> (r: Result<RangeSet, Error>)
    ensures
        r matches Ok(rs) ==> rs.wf() && rs@ == usable_points(descs@),
        r is Ok <==> no_overflow_before(descs@, descs@.len() as int) && prefixes_fit(
            descs@,
            descs@.len() as int,
        ),
        r == Err::<RangeSet, Error>(Error::MemoryMapIntegerOverflow) <==> exists|i: int|
            0 <= i < descs@.len() && no_overflow_before(descs@, i) && prefixes_fit(descs@, i)
                && desc_usable(#[trigger] descs@[i]) && desc_overflows(descs@[i]),
        r == Err::<RangeSet, Error>(Error::MemoryRangeSet(rangeset::Error::OutOfEntries)) <==> exists|i: int|
            0 <= i < descs@.len() && no_overflow_before(descs@, i + 1) && prefixes_fit(descs@, i)
                && !representable(usable_points(descs@.take(i + 1))) && #[trigger] desc_usable(descs@[i]),
        r matches Err(e) ==> e == Error::MemoryMapIntegerOverflow || e == Error::MemoryRangeSet(
            rangeset::Error::OutOfEntries),
        descs@.len() <= rangeset::MAX_RANGES ==> r != Err::<RangeSet, Error>(
            Error::MemoryRangeSet(rangeset::Error::OutOfEntries)),
{
    let mut usable = RangeSet::new();
    let mut i: usize = 0;
    proof {
        assert(descs@.take(0) =~= Seq::<EfiMemoryDescriptor>::empty());
        assert(usable.spans() =~= Seq::<Range>::empty());
        assert(representable(usable_points(descs@.take(0))));
    }
    while i < descs.len()
        invariant
            usable.wf(),
            i <= descs@.len(),
            usable.spans().len() <= i,
            usable@ == usable_points(descs@.take(i as int)),
            no_overflow_before(descs@, i as int),
            prefixes_fit(descs@, i as int),
        decreases descs@.len() - i,
    {
        let entry = descs[i];
        proof {
            assert(descs@.take(i + 1).drop_last() =~= descs@.take(i as int));
            assert(descs@.take(i + 1).last() == entry);
        }
        let typ = EfiMemoryType::from(entry.typ);
        if typ.avail_post_exit_boot_services() && entry.number_of_pages > 0 {
            // Number of bytes in the region
            let bytes = match entry.number_of_pages.checked_mul(PAGE_SIZE) {
                Some(b) => b,
                None => {
                    proof {
                        lemma_first_problem_unique(descs@, i as int);
                    }
                    return Err(Error::MemoryMapIntegerOverflow);
                },
            };

            // Last byte of the region
            let end = match entry.physical_start.checked_add(bytes - 1) {
                Some(e) => e,
                None => {
                    proof {
                        lemma_first_problem_unique(descs@, i as int);
                    }
                    return Err(Error::MemoryMapIntegerOverflow);
                },
            };
            match usable.insert(Range { start: entry.physical_start, end }) {
                Ok(()) => {},
                Err(e) => {
                    proof {
                        assert(points(Range { start: entry.physical_start, end }) =~= rangeset::interval(
                            entry.physical_start as int, desc_end(entry)));
                        assert(no_overflow_before(descs@, i + 1));
                        lemma_first_problem_unique(descs@, i as int);
                    }
                    return Err(Error::MemoryRangeSet(e));
                },
            }
        }
        proof {
            assert(representable(usable_points(descs@.take(i + 1)))) by {
                assert(ranges_wf(usable.spans()) && covered(usable.spans()) == usable_points(descs@.take(i + 1)));
            }
            assert forall|k: int| 0 <= k <= i + 1 implies representable(#[trigger] usable_points(descs@.take(k))) by {
                if k <= i {
                    assert(prefixes_fit(descs@, i as int));
                }
            }
        }
        i = i + 1;
    }
    proof {
        assert(descs@.take(i as int) =~= descs@);
    }
    Ok(usable)
}

/// The descriptor at `i` is the first that cannot be taken: no other index
/// meets either error's condition, nor does the whole sequence succeed
proof fn lemma_first_problem_unique(ds: Seq<EfiMemoryDescriptor>, i: int)
    requires
        0 <= i < ds.len(),
        no_overflow_before(ds, i),
        prefixes_fit(ds, i),
        desc_usable(ds[i]),
        desc_overflows(ds[i]) || !representable(usable_points(ds.take(i + 1))),
    ensures
        forall|j: int| 0 <= j < ds.len() && j != i ==> !(no_overflow_before(ds, j) && prefixes_fit(ds, j)
            && desc_usable(#[trigger] ds[j]) && (desc_overflows(ds[j]) || !representable(usable_points(ds.take(j + 1))))),
        !(no_overflow_before(ds, ds.len() as int) && prefixes_fit(ds, ds.len() as int)),
{
    assert forall|j: int| 0 <= j < ds.len() && j != i implies !(no_overflow_before(ds, j) && prefixes_fit(ds, j)
        && desc_usable(#[trigger] ds[j]) && (desc_overflows(ds[j]) || !representable(usable_points(ds.take(j + 1))))) by {
        if j < i && desc_usable(ds[j]) {
            assert(!desc_overflows(ds[j]));
            assert(representable(usable_points(ds.take(j + 1))));
        } else if j > i && no_overflow_before(ds, j) && prefixes_fit(ds, j) {
            assert(!desc_overflows(ds[i]));
            assert(representable(usable_points(ds.take(i + 1))));
        }
    }
    if no_overflow_before(ds, ds.len() as int) && prefixes_fit(ds, ds.len() as int) {
        assert(!desc_overflows(ds[i]));
        assert(representable(usable_points(ds.take(i + 1))));
    }
}

/// A firmware GUID
#[derive(Debug, Clone, Copy, PartialEq, Eq)]
pub struct EfiGuid(pub u32, pub u16, pub u16, pub [u8; 8]);

/// A configuration table entry: a GUID naming the table, and its address
#[derive(Debug, Clone, Copy, PartialEq, Eq)]
pub struct EfiConfigurationTable {
    /// What the table is
    pub guid: EfiGuid,

    /// Address of the table
    pub table: usize,
}

/// GUID of the description tables of revision 2.0 or newer
pub open spec fn acpi20_guid() -> EfiGuid {
    EfiGuid(0x8868e871, 0xe4f1, 0x11d3, [0xbc, 0x22, 0x00, 0x80, 0xc7, 0x3c, 0x88, 0x81])
}

/// GUID of the description tables of revision 1.0
pub open spec fn acpi10_guid() -> EfiGuid {
    EfiGuid(0xeb9d2d30, 0x2d88, 0x11d3, [0x9a, 0x16, 0x00, 0x90, 0x27, 0x3f, 0xc1, 0x4d])
}

/// Two GUIDs are the same
pub open spec fn same_guid(a: EfiGuid, b: EfiGuid) -> bool {
    a.0 == b.0 && a.1 == b.1 && a.2 == b.2 && a.3@ == b.3@
}

/// The address of the first table from entry `i` on whose GUID is `g`
pub open spec fn find_table(ts: Seq<EfiConfigurationTable>, g: EfiGuid, i: int) -> Option<usize>
    decreases ts.len() - i,
{
    if i < 0 || i >= ts.len() {
        None
    } else if same_guid(ts[i].guid, g) {
        Some(ts[i].table)
    } else {
        find_table(ts, g, i + 1)
    }
}

/// The root pointer the configuration tables give: the first revision 2.0
/// table, else the first revision 1.0 table
pub open spec fn acpi_root_of(ts: Seq<EfiConfigurationTable>) -> Option<usize> {
    match find_table(ts, acpi20_guid(), 0) {
        Some(t) => Some(t),
        None => find_table(ts, acpi10_guid(), 0),
    }
}

fn guid_eq(a: &EfiGuid, b: &EfiGuid) -> (r: bool)
    ensures
        r == same_guid(*a, *b),
{
    if a.0 != b.0 || a.1 != b.1 || a.2 != b.2 {
        return false;
    }
    let mut i: usize = 0;
    while i < 8
        invariant
            i <= 8,
            forall|j: int| 0 <= j < i ==> a.3@[j] == b.3@[j],
        decreases 8 - i,
    {
        if a.3[i] != b.3[i] {
            return false;
        }
        i = i + 1;
    }
    assert(a.3@ =~= b.3@);
    true
}

/// The address of the first table in `tables` whose GUID is `g`
fn find_guid(tables: &[EfiConfigurationTable], g: &EfiGuid) -> (r: Option<usize>)
    ensures
        r == find_table(tables@, *g, 0),
{
    let mut i: usize = 0;
    while i < tables.len()
        invariant
            i <= tables@.len(),
            find_table(tables@, *g, 0) == find_table(tables@, *g, i as int),
        decreases tables@.len() - i,
    {
        if guid_eq(&tables[i].guid, g) {
            return Some(tables[i].table);
        }
        i = i + 1;
    }
    None
}

/// Get the base of the table root pointer from the firmware's configuration
/// tables: the revision 2.0 table if listed, else the revision 1.0 one
pub fn get_acpi_table(tables: &[EfiConfigurationTable]) -> (r: Option<usize>)
    ensures
        r == acpi_root_of(tables@),
{
    let acpi20 = EfiGuid(0x8868e871, 0xe4f1, 0x11d3, [0xbc, 0x22, 0x00, 0x80, 0xc7, 0x3c, 0x88, 0x81]);
    let acpi10 = EfiGuid(0xeb9d2d30, 0x2d88, 0x11d3, [0x9a, 0x16, 0x00, 0x90, 0x27, 0x3f, 0xc1, 0x4d]);
    proof {
        assert(acpi20.3@ =~= acpi20_guid().3@);
        assert(acpi10.3@ =~= acpi10_guid().3@);
        lemma_find_table_same(tables@, acpi20, acpi20_guid(), 0);
        lemma_find_table_same(tables@, acpi10, acpi10_guid(), 0);
    }
    match find_guid(tables, &acpi20) {
        Some(t) => Some(t),
        None => find_guid(tables, &acpi10),
    }
}

proof fn lemma_find_table_same(ts: Seq<EfiConfigurationTable>, g: EfiGuid, h: EfiGuid, i: int)
    requires
        same_guid(g, h),
    ensures
        find_table(ts, g, i) == find_table(ts, h, i),
    decreases ts.len() - i,
{
    if 0 <= i < ts.len() {
        lemma_find_table_same(ts, g, h, i + 1);
    }
}

/// Characters a console buffer holds before it is handed over, leaving room
/// for a carriage return, a line feed and the terminator
pub const CONSOLE_FLUSH_AT: usize = 30;

/// The UCS-2 text that goes to the console for `s`: a carriage return
/// before every line feed
pub open spec fn console_text(s: Seq<u16>) -> Seq<u16>
    decreases s.len(),
{
    if s.len() == 0 {
        Seq::empty()
    } else if s.last() == 0x0a {
        console_text(s.drop_last()) + seq![0x0du16, 0x0au16]
    } else {
        console_text(s.drop_last()).push(s.last())
    }
}

/// The text of buffers `bufs`, each without its terminator, in order
pub open spec fn joined(bufs: Seq<Vec<u16>>) -> Seq<u16>
    decreases bufs.len(),
{
    if bufs.len() == 0 {
        Seq::empty()
    } else {
        joined(bufs.drop_last()) + bufs.last()@.drop_last()
    }
}

/// Split UCS-2 text `text` into the null-terminated buffers handed to the
/// console one at a time: a carriage return goes before every line feed, and
/// a buffer holds at most 31 characters before its terminator
pub fn console_buffers(text: &[u16]) -> (r: Vec<Vec<u16>>)
    ensures
        joined(r@) == console_text(text@),
        forall|k: int| 0 <= k < r@.len() ==> 2 <= (#[trigger] r@[k])@.len() <= 32 && r@[k]@.last() == 0,
{
    let mut out: Vec<Vec<u16>> = Vec::new();
    let mut tmp: Vec<u16> = Vec::new();
    let mut i: usize = 0;
    while i < text.len()
        invariant
            i <= text@.len(),
            tmp@.len() < CONSOLE_FLUSH_AT,
            joined(out@) + tmp@ == console_text(text@.take(i as int)),
            forall|k: int| 0 <= k < out@.len() ==> 2 <= (#[trigger] out@[k])@.len() <= 32 && out@[k]@.last() == 0,
        decreases text@.len() - i,
    {
        let chr = text[i];
        proof {
            assert(text@.take(i + 1).drop_last() =~= text@.take(i as int));
            assert(text@.take(i + 1).last() == chr);
        }
        let ghost before = tmp@;
        // Inject a carriage return before a line feed
        if chr == 0x0a {
            tmp.push(0x0d);
        }
        tmp.push(chr);
        proof {
            if chr == 0x0a {
                assert(tmp@ =~= before + seq![0x0du16, 0x0au16]);
            } else {
                assert(tmp@ =~= before.push(chr));
            }
            assert(joined(out@) + tmp@ =~= console_text(text@.take(i + 1)));
        }
        if tmp.len() >= CONSOLE_FLUSH_AT {
            let ghost chars = tmp@;
            tmp.push(0);
            let ghost old_out = out@;
            out.push(tmp);
            tmp = Vec::new();
            proof {
                assert(out@.drop_last() =~= old_out);
                assert(out@.last()@.drop_last() =~= chars);
                assert(joined(out@) + tmp@ =~= joined(old_out) + chars);
            }
        }
        i = i + 1;
    }
    proof {
        assert(text@.take(i as int) =~= text@);
    }
    if tmp.len() > 0 {
        let ghost chars = tmp@;
        tmp.push(0);
        let ghost old_out = out@;
        out.push(tmp);
        proof {
            assert(out@.drop_last() =~= old_out);
            assert(out@.last()@.drop_last() =~= chars);
        }
    } else {
        assert(joined(out@) =~= joined(out@) + tmp@);
    }
    out
}

} // verus!
