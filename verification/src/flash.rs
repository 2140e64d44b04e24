//! Flash storage layout: the reserved storage region and the sector map of
//! the device's flash. The block read, erase and write operations poke
//! device registers and live outside this library.

use vstd::prelude::*;

use crate::board::BoardConfig;

verus! {

/// The start address of the storage region (the last reserved sector).
pub fn start() -> (a: u32)
    ensures
        a == BoardConfig::FLASH_STORAGE_START,
{
    BoardConfig::FLASH_STORAGE_START
}

/// The end address of the storage region.
pub fn end() -> (a: u32)
    ensures
        a == BoardConfig::FLASH_STORAGE_END,
{
    BoardConfig::FLASH_STORAGE_END
}

/// The sector an address belongs to, by the device's flash sector map:
/// four 16 KB sectors, one 64 KB sector, then 128 KB sectors.
pub open spec fn spec_sector_number(addr: u32) -> Option<u32> {
    if addr < 0x08000000 {
        None
    } else if addr < 0x08004000 {
        Some(0u32)
    } else if addr < 0x08008000 {
        Some(1u32)
    } else if addr < 0x0800C000 {
        Some(2u32)
    } else if addr < 0x08010000 {
        Some(3u32)
    } else if addr < 0x08020000 {
        Some(4u32)
    } else if addr < 0x08180000 {
        Some((5 + (addr - 0x08020000) / 0x20000) as u32)
    } else {
        None
    }
}

/// Map a flash address to its sector number; addresses outside the
/// device's flash have none.
pub fn get_sector_number(addr: u32) -> (r: Option<u32>)
    ensures
        r == spec_sector_number(addr),
{
    if addr < 0x08000000 {
        None
    } else if addr < 0x08004000 {
        Some(0)
    } else if addr < 0x08008000 {
        Some(1)
    } else if addr < 0x0800C000 {
        Some(2)
    } else if addr < 0x08010000 {
        Some(3)
    } else if addr < 0x08020000 {
        Some(4)
    } else if addr < 0x08180000 {
        Some(5 + (addr - 0x08020000) / 0x20000)
    } else {
        None
    }
}

} // verus!
