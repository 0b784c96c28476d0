//! The boot sector: where the table is and how it is cut.

use vstd::prelude::*;

use crate::bytes;
use crate::bytes::{read_u16, read_u64};

verus! {

/// The update sequence protects each 512-byte stride of a record, whatever
/// the disk's sector size.
pub const STRIDE: usize = 512;

/// Where the table is and how it is cut, from the boot sector.
#[derive(Clone, Copy, Debug, PartialEq, Eq, Structural)]
pub struct Geometry {
    pub cluster: u64,
    pub record: usize,
    /// Byte offset of the table's first record.
    pub mft_offset: u64,
}

/// The eight bytes at offset 3 of an NTFS boot sector: `NTFS` and four spaces.
pub open spec fn ntfs_mark() -> Seq<u8> {
    seq![0x4e, 0x54, 0x46, 0x53, 0x20, 0x20, 0x20, 0x20]
}

/// A sector size that a volume can have: a power of two from 256 to 4096.
pub open spec fn sector_size(size: nat) -> bool {
    size == 256 || size == 512 || size == 1024 || size == 2048 || size == 4096
}

/// Two to the power `exponent`, if it fits in 64 bits.
pub open spec fn power(exponent: int) -> Option<nat> {
    if 0 <= exponent < 64 {
        Some(vstd::arithmetic::power2::pow2(exponent as nat))
    } else {
        None
    }
}

/// Sectors in a cluster. Cluster sizes past 64 KiB are stored as a negative
/// power of two.
pub open spec fn sectors_per_cluster(raw: u8) -> Option<nat> {
    if raw > 0x80 {
        power(256 - raw)
    } else {
        Some(raw as nat)
    }
}

/// Bytes in a record: a negative count is a power of two, another one counts
/// clusters.
pub open spec fn record_size(raw: u8, cluster: nat) -> Option<nat> {
    if raw >= 0x80 {
        power(256 - raw)
    } else {
        Some(raw as nat * cluster)
    }
}

/// The geometry that a boot sector states, if it is one of an NTFS volume.
pub open spec fn boot_geometry(sector: Seq<u8>) -> Option<Geometry> {
    let bytes_per_sector = bytes::le_at(sector, 0x0b, 2);
    let sectors = sectors_per_cluster(sector[0x0d]);
    let cluster = bytes_per_sector * sectors.unwrap();
    let record = record_size(sector[0x40], cluster);
    let mft_offset = bytes::le_at(sector, 0x30, 8) * cluster;
    if {
        &&& sector.len() > 0x40
        &&& sector.subrange(3, 11) == ntfs_mark()
        &&& sector_size(bytes_per_sector)
        &&& sectors is Some
        &&& 0 < cluster <= u64::MAX
        &&& record is Some
        &&& 1024 <= record.unwrap() <= 65_536
        &&& record.unwrap() % STRIDE as nat == 0
        &&& mft_offset <= u64::MAX
    } {
        Some(
            Geometry {
                cluster: cluster as u64,
                record: record.unwrap() as usize,
                mft_offset: mft_offset as u64,
            },
        )
    } else {
        None
    }
}

/// Two to the power `exponent`, if it fits in 64 bits.
fn checked_power(exponent: u32) -> (result: Option<u64>)
    ensures
        result is Some <==> power(exponent as int) is Some,
        result matches Some(value) ==> Some(value as nat) == power(exponent as int),
{
    if exponent >= 64 {
        return None;
    }
    proof {
        vstd::bits::lemma_u64_pow2_no_overflow(exponent as nat);
        vstd::bits::lemma_u64_shl_is_mul(1, exponent as u64);
    }
    Some(1u64 << exponent as u64)
}

/// Whether `sector` carries the mark of an NTFS boot sector.
fn is_marked(sector: &[u8]) -> (marked: bool)
    requires
        sector@.len() > 0x40,
    ensures
        marked == (sector@.subrange(3, 11) == ntfs_mark()),
{
    let marked = sector[3] == 0x4e && sector[4] == 0x54 && sector[5] == 0x46 && sector[6] == 0x53
        && sector[7] == 0x20 && sector[8] == 0x20 && sector[9] == 0x20 && sector[10] == 0x20;
    proof {
        let found = sector@.subrange(3, 11);
        if marked {
            assert(found =~= ntfs_mark());
        } else {
            assert(forall|i: int| 0 <= i < 8 ==> found[i] == #[trigger] sector@[i + 3]);
            assert(found[0] == sector@[3]);
            assert(found[1] == sector@[4]);
            assert(found[2] == sector@[5]);
            assert(found[3] == sector@[6]);
            assert(found[4] == sector@[7]);
            assert(found[5] == sector@[8]);
            assert(found[6] == sector@[9]);
            assert(found[7] == sector@[10]);
        }
    }
    marked
}

/// Read the geometry from an NTFS boot sector; `None` for anything else.
pub fn parse_boot(sector: &[u8]) -> (geometry: Option<Geometry>)
    ensures
        geometry == boot_geometry(sector@),
{
    if sector.len() <= 0x40 || !is_marked(sector) {
        return None;
    }
    let bytes_per_sector: u64 = read_u16(sector, 0x0b)? as u64;
    if !(bytes_per_sector == 256 || bytes_per_sector == 512 || bytes_per_sector == 1024
        || bytes_per_sector == 2048 || bytes_per_sector == 4096) {
        return None;
    }
    let raw: u8 = sector[0x0d];
    let sectors: u64 = if raw > 0x80 {
        checked_power(256 - raw as u32)?
    } else {
        raw as u64
    };
    let cluster: u64 = bytes_per_sector.checked_mul(sectors)?;
    if cluster == 0 {
        return None;
    }
    let mft_cluster: u64 = read_u64(sector, 0x30)?;
    let per_record: u8 = sector[0x40];
    let record: u64 = if per_record >= 0x80 {
        checked_power(256 - per_record as u32)?
    } else {
        (per_record as u64).checked_mul(cluster)?
    };
    if record < 1024 || record > 65_536 || record % STRIDE as u64 != 0 {
        return None;
    }
    let mft_offset: u64 = mft_cluster.checked_mul(cluster)?;
    Some(Geometry { cluster, record: record as usize, mft_offset })
}

} // verus!
