//! Big-endian fields and SQLite variable-length integers.
use vstd::prelude::*;

verus! {

/// The big-endian 16-bit value stored at `offset`.
pub open spec fn be16(s: Seq<u8>, offset: int) -> int {
    (s[offset] as int) * 256 + (s[offset + 1] as int)
}

/// The big-endian 32-bit value stored at `offset`.
pub open spec fn be32(s: Seq<u8>, offset: int) -> int {
    (s[offset] as int) * 0x100_0000 + (s[offset + 1] as int) * 0x1_0000 + (s[offset + 2] as int)
        * 0x100 + (s[offset + 3] as int)
}

/// Reads a big-endian 16-bit field.
pub fn word(bytes: &[u8], offset: usize) -> (r: u16)
    requires
        offset + 2 <= bytes@.len(),
    ensures
        r == be16(bytes@, offset as int),
{
    let high = bytes[offset] as u16;
    let low = bytes[offset + 1] as u16;
    high * 256 + low
}

/// Reads a big-endian 32-bit field.
pub fn dword(bytes: &[u8], offset: usize) -> (r: u32)
    requires
        offset + 4 <= bytes@.len(),
    ensures
        r == be32(bytes@, offset as int),
{
    let b0 = bytes[offset] as u32;
    let b1 = bytes[offset + 1] as u32;
    let b2 = bytes[offset + 2] as u32;
    let b3 = bytes[offset + 3] as u32;
    b0 * 0x100_0000 + b1 * 0x1_0000 + b2 * 0x100 + b3
}

/// One step of SQLite's variable-length integer: bytes `0..8` contribute their
/// low seven bits while their high bit is set; a ninth byte contributes all
/// eight bits. `None` means the encoding runs past the end of `s`.
pub open spec fn varint_from(s: Seq<u8>, start: int, index: nat, acc: u64) -> Option<(u64, int)>
    decreases 9 - index,
{
    if index >= 9 || start < 0 || start + index >= s.len() {
        None
    } else {
        let byte = s[start + index];
        if index == 8 {
            Some(((acc << 8u64) | (byte as u64), start + 9))
        } else {
            let value = (acc << 7u64) | ((byte & 0x7f) as u64);
            if byte & 0x80 == 0 {
                Some((value, start + index + 1))
            } else {
                varint_from(s, start, index + 1, value)
            }
        }
    }
}

/// The SQLite varint that begins at `start`: its value and the position after it.
pub open spec fn varint_at(s: Seq<u8>, start: int) -> Option<(u64, int)> {
    varint_from(s, start, 0, 0)
}

/// Decodes the varint at `*cursor`, advancing the cursor past it.
pub fn varint(bytes: &[u8], cursor: &mut usize) -> (r: Result<u64, ()>)
    ensures
        match varint_at(bytes@, *old(cursor) as int) {
            Some((value, next)) => r == Ok::<u64, ()>(value) && *final(cursor) == next,
            None => r is Err,
        },
{
    let ghost start = *cursor as int;
    let mut value: u64 = 0;
    let mut index: usize = 0;
    while index < 9
        invariant
            index <= 8,
            start >= 0,
            start == *old(cursor) as int,
            *cursor == start + index,
            varint_from(bytes@, start, index as nat, value) == varint_at(bytes@, start),
        decreases 9 - index,
    {
        if *cursor >= bytes.len() {
            assert(varint_from(bytes@, start, index as nat, value) is None);
            return Err(());
        }
        let byte = bytes[*cursor];
        let ghost old_value = value;
        *cursor = *cursor + 1;
        if index == 8 {
            return Ok((value << 8u64) | (byte as u64));
        }
        value = (value << 7u64) | ((byte & 0x7f) as u64);
        if byte & 0x80 == 0 {
            assert(varint_from(bytes@, start, index as nat, old_value) == Some((value, start + index + 1)));
            return Ok(value);
        }
        index = index + 1;
    }
    Err(())
}

} // verus!
