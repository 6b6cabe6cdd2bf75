//! The header of the flattened device tree.
//!
//! The tree is a block of bytes that the firmware leaves in memory. Its
//! header is ten 32-bit fields, each big-endian.

use vstd::prelude::*;

verus! {

/// The magic word that a device tree starts with.
pub const FDT_MAGIC: u32 = 0xd00d_feed;

/// The lowest version of the format that the kernel reads.
pub const FDT_MIN_VERSION: u32 = 17;

/// The bytes of the header.
pub const FDT_HEADER_SIZE: usize = 40;

/// The header of a device tree.
#[derive(Clone, Copy, PartialEq, Eq, Structural, Debug)]
pub struct FdtHeader {
    /// Magic word.
    pub magic: u32,
    /// Total size of the block.
    pub total_size: u32,
    /// Offset to the structure.
    pub off_dt_struct: u32,
    /// Offset to the strings.
    pub off_dt_strings: u32,
    /// Offset to the memory reserve map.
    pub off_mem_rsvmap: u32,
    /// Format version.
    pub version: u32,
    /// Last compatible version.
    pub last_comp_version: u32,
    /// The physical id of the hart that boots.
    pub boot_cpuid_phys: u32,
    /// Size of the strings block.
    pub size_dt_strings: u32,
    /// Size of the structure block.
    pub size_dt_struct: u32,
}

/// Why a block of bytes is not a device tree that the kernel reads.
#[derive(Clone, Copy, PartialEq, Eq, Structural, Debug)]
pub enum DtbError {
    /// There are less bytes than a header has.
    Short,
    /// The magic word is this, and not `FDT_MAGIC`.
    BadMagic(u32),
    /// The version is this, below `FDT_MIN_VERSION`.
    BadVersion(u32),
}

/// The big-endian 32-bit number at offset `off` of `s`.
pub open spec fn spec_be32(s: Seq<u8>, off: int) -> u32 {
    (s[off] * 0x100_0000 + s[off + 1] * 0x1_0000 + s[off + 2] * 0x100 + s[off + 3]) as u32
}

/// The header that the first 40 bytes of `s` spell.
pub open spec fn spec_header(s: Seq<u8>) -> FdtHeader {
    FdtHeader {
        magic: spec_be32(s, 0),
        total_size: spec_be32(s, 4),
        off_dt_struct: spec_be32(s, 8),
        off_dt_strings: spec_be32(s, 12),
        off_mem_rsvmap: spec_be32(s, 16),
        version: spec_be32(s, 20),
        last_comp_version: spec_be32(s, 24),
        boot_cpuid_phys: spec_be32(s, 28),
        size_dt_strings: spec_be32(s, 32),
        size_dt_struct: spec_be32(s, 36),
    }
}

/// What reading the header of `s` gives.
pub open spec fn spec_parse(s: Seq<u8>) -> Result<FdtHeader, DtbError> {
    if s.len() < FDT_HEADER_SIZE {
        Err(DtbError::Short)
    } else if spec_be32(s, 0) != FDT_MAGIC {
        Err(DtbError::BadMagic(spec_be32(s, 0)))
    } else if spec_be32(s, 20) < FDT_MIN_VERSION {
        Err(DtbError::BadVersion(spec_be32(s, 20)))
    } else {
        Ok(spec_header(s))
    }
}

/// Reads the big-endian 32-bit number at offset `off`.
pub fn be32(bytes: &Vec<u8>, off: usize) -> (r: u32)
    requires
        off + 4 <= bytes@.len(),
    ensures
        r == spec_be32(bytes@, off as int),
{
    let n: usize = bytes.len();
    assert(off + 4 <= n);
    let b0: u32 = bytes[off] as u32;
    let b1: u32 = bytes[off + 1] as u32;
    let b2: u32 = bytes[off + 2] as u32;
    let b3: u32 = bytes[off + 3] as u32;
    b0 * 0x100_0000 + b1 * 0x1_0000 + b2 * 0x100 + b3
}

/// Reads the header of a device tree and checks its magic word and its version.
pub fn parse_dtb_early(bytes: &Vec<u8>) -> (r: Result<FdtHeader, DtbError>)
    ensures
        r == spec_parse(bytes@),
{
    if bytes.len() < FDT_HEADER_SIZE {
        return Err(DtbError::Short);
    }
    let magic: u32 = be32(bytes, 0);
    if magic != FDT_MAGIC {
        return Err(DtbError::BadMagic(magic));
    }
    let version: u32 = be32(bytes, 20);
    if version < FDT_MIN_VERSION {
        return Err(DtbError::BadVersion(version));
    }
    Ok(
        FdtHeader {
            magic,
            total_size: be32(bytes, 4),
            off_dt_struct: be32(bytes, 8),
            off_dt_strings: be32(bytes, 12),
            off_mem_rsvmap: be32(bytes, 16),
            version,
            last_comp_version: be32(bytes, 24),
            boot_cpuid_phys: be32(bytes, 28),
            size_dt_strings: be32(bytes, 32),
            size_dt_struct: be32(bytes, 36),
        },
    )
}

} // verus!
