use vstd::prelude::*;
use crate::error::MapError;

verus! {

/// Unsigned little-endian value of the two bytes at `p`.
pub open spec fn le_u16(d: Seq<u8>, p: int) -> int {
    d[p] as int + d[p + 1] as int * 256
}

/// Signed little-endian value of the two bytes at `p`.
pub open spec fn le_i16(d: Seq<u8>, p: int) -> int {
    let u = le_u16(d, p);
    if u >= 0x8000 { u - 0x1_0000 } else { u }
}

/// Unsigned little-endian value of the four bytes at `p`.
pub open spec fn le_u32(d: Seq<u8>, p: int) -> int {
    d[p] as int + d[p + 1] as int * 0x100 + d[p + 2] as int * 0x1_0000 + d[p + 3] as int * 0x100_0000
}

/// Signed little-endian value of the four bytes at `p`.
pub open spec fn le_i32(d: Seq<u8>, p: int) -> int {
    let u = le_u32(d, p);
    if u >= 0x8000_0000 { u - 0x1_0000_0000 } else { u }
}

/// Reads one byte at `*pos` and advances past it.
pub fn read_u8(data: &[u8], pos: &mut u64) -> (r: Result<u8, MapError>)
    ensures
        match r {
            Ok(v) => *old(pos) + 1 <= data@.len() && v == data@[*old(pos) as int] && *final(pos) == *old(pos) + 1,
            Err(e) => *old(pos) + 1 > data@.len() && e == MapError::Io && *final(pos) == *old(pos),
        },
{
    if *pos >= data.len() as u64 {
        return Err(MapError::Io);
    }
    let v = data[*pos as usize];
    *pos = *pos + 1;
    Ok(v)
}

/// Reads a little-endian `u16` at `*pos` and advances past it.
pub fn read_u16(data: &[u8], pos: &mut u64) -> (r: Result<u16, MapError>)
    ensures
        match r {
            Ok(v) => *old(pos) + 2 <= data@.len() && v == le_u16(data@, *old(pos) as int) && *final(pos) == *old(pos) + 2,
            Err(e) => *old(pos) + 2 > data@.len() && e == MapError::Io && *final(pos) == *old(pos),
        },
{
    let len = data.len() as u64;
    if *pos >= len || len - *pos < 2 {
        return Err(MapError::Io);
    }
    let p = *pos as usize;
    let v: u16 = data[p] as u16 + data[p + 1] as u16 * 256;
    *pos = *pos + 2;
    Ok(v)
}

/// Reads a little-endian `i16` at `*pos` and advances past it.
pub fn read_i16(data: &[u8], pos: &mut u64) -> (r: Result<i16, MapError>)
    ensures
        match r {
            Ok(v) => *old(pos) + 2 <= data@.len() && v == le_i16(data@, *old(pos) as int) && *final(pos) == *old(pos) + 2,
            Err(e) => *old(pos) + 2 > data@.len() && e == MapError::Io && *final(pos) == *old(pos),
        },
{
    let u = read_u16(data, pos)?;
    if u >= 0x8000 {
        Ok((u as i32 - 0x1_0000) as i16)
    } else {
        Ok(u as i16)
    }
}

/// Reads a little-endian `u32` at `*pos` and advances past it.
pub fn read_u32(data: &[u8], pos: &mut u64) -> (r: Result<u32, MapError>)
    ensures
        match r {
            Ok(v) => *old(pos) + 4 <= data@.len() && v == le_u32(data@, *old(pos) as int) && *final(pos) == *old(pos) + 4,
            Err(e) => *old(pos) + 4 > data@.len() && e == MapError::Io && *final(pos) == *old(pos),
        },
{
    let len = data.len() as u64;
    if *pos >= len || len - *pos < 4 {
        return Err(MapError::Io);
    }
    let p = *pos as usize;
    let v: u32 = data[p] as u32 + data[p + 1] as u32 * 0x100 + data[p + 2] as u32 * 0x1_0000
        + data[p + 3] as u32 * 0x100_0000;
    *pos = *pos + 4;
    Ok(v)
}

/// Reads a little-endian `i32` at `*pos` and advances past it.
pub fn read_i32(data: &[u8], pos: &mut u64) -> (r: Result<i32, MapError>)
    ensures
        match r {
            Ok(v) => *old(pos) + 4 <= data@.len() && v == le_i32(data@, *old(pos) as int) && *final(pos) == *old(pos) + 4,
            Err(e) => *old(pos) + 4 > data@.len() && e == MapError::Io && *final(pos) == *old(pos),
        },
{
    let u = read_u32(data, pos)?;
    if u >= 0x8000_0000 {
        Ok((u as i64 - 0x1_0000_0000) as i32)
    } else {
        Ok(u as i32)
    }
}

/// Moves `*pos` by `off` bytes; a position before the start is refused.
/// As with a file, the position may lie past the end: the next read fails there.
pub fn seek_by(pos: &mut u64, off: i64) -> (r: Result<(), MapError>)
    ensures
        match r {
            Ok(_) => *final(pos) == *old(pos) + off,
            Err(e) => (*old(pos) + off < 0 || *old(pos) + off > u64::MAX) && e == MapError::Io
                && *final(pos) == *old(pos),
        },
{
    if off >= 0 {
        let o = off as u64;
        if *pos > u64::MAX - o {
            return Err(MapError::Io);
        }
        *pos = *pos + o;
    } else {
        let back: u64 = (-(off as i128)) as u64;
        if back > *pos {
            return Err(MapError::Io);
        }
        *pos = *pos - back;
    }
    Ok(())
}

} // verus!
