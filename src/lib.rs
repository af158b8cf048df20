//! Early-boot resource discovery: bounded access to a physical memory image,
//! a disjoint range set for usable memory, generic register access
//! descriptors, and validation and parsing of firmware description tables.

pub mod acpi;
pub mod efi;
pub mod gas;
pub mod physmem;
pub mod rangeset;
pub mod serial;
