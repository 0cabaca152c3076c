//! Reading numbers one after the other.

use vstd::prelude::*;
use vstd::string::*;
use crate::bytes::{get32, get32s, read32, read32s};
use crate::text::copy_of;

verus! {

/// A place in a byte buffer.
pub struct BinaryReader<'a> {
    pub data: &'a [u8],
    pub pos: usize,
}

/// `n` numbers stand in `len` bytes from `pos` on.
pub open spec fn holds(len: int, pos: int, n: int) -> bool {
    pos + 4 * n <= len
}

fn enough(len: usize, pos: usize, n: usize) -> (r: bool)
    ensures
        r == holds(len as int, pos as int, n as int),
{
    pos <= len && (len - pos) / 4 >= n
}

impl<'a> BinaryReader<'a> {
    /// A reader that begins at `pos`.
    pub fn new(data: &'a [u8], pos: usize) -> (r: Self)
        ensures
            r.data@ == data@,
            r.pos == pos,
    {
        BinaryReader { data, pos }
    }

    /// Reads a number and goes on behind it.
    pub fn read_u32(&mut self) -> (r: Result<u32, String>)
        ensures
            final(self).data@ == old(self).data@,
            match r {
                Ok(v) => {
                    &&& holds(old(self).data@.len() as int, old(self).pos as int, 1)
                    &&& v == get32(old(self).data@, old(self).pos as int)
                    &&& final(self).pos == old(self).pos + 4
                },
                Err(e) => {
                    &&& !holds(old(self).data@.len() as int, old(self).pos as int, 1)
                    &&& e@ == "truncated header data"@
                    &&& final(self).pos == old(self).pos
                },
            },
    {
        if !enough(self.data.len(), self.pos, 1) {
            return Err(copy_of("truncated header data"));
        }
        let v: u32 = read32(self.data, self.pos);
        self.pos = self.pos + 4;
        Ok(v)
    }

    /// Reads the bit patterns of `n` numbers and goes on behind them.
    pub fn read_f32s(&mut self, n: usize) -> (r: Result<Vec<u32>, String>)
        ensures
            final(self).data@ == old(self).data@,
            match r {
                Ok(v) => {
                    &&& holds(old(self).data@.len() as int, old(self).pos as int, n as int)
                    &&& v@ == get32s(old(self).data@, old(self).pos as int, n as int)
                    &&& final(self).pos == old(self).pos + 4 * n
                },
                Err(e) => {
                    &&& !holds(old(self).data@.len() as int, old(self).pos as int, n as int)
                    &&& e@ == "truncated weight data"@
                    &&& final(self).pos == old(self).pos
                },
            },
    {
        if !enough(self.data.len(), self.pos, n) {
            return Err(copy_of("truncated weight data"));
        }
        let v: Vec<u32> = read32s(self.data, self.pos, n);
        self.pos = self.pos + 4 * n;
        Ok(v)
    }
}

/// Reads a number at `pos` and moves `pos` behind it.
pub fn read_u32(data: &[u8], pos: &mut usize) -> (r: Result<u32, String>)
    ensures
        match r {
            Ok(v) => {
                &&& holds(data@.len() as int, *old(pos) as int, 1)
                &&& v == get32(data@, *old(pos) as int)
                &&& *final(pos) == *old(pos) + 4
            },
            Err(e) => {
                &&& !holds(data@.len() as int, *old(pos) as int, 1)
                &&& e@ == "truncated u32"@
                &&& *final(pos) == *old(pos)
            },
        },
{
    if !enough(data.len(), *pos, 1) {
        return Err(copy_of("truncated u32"));
    }
    let v: u32 = read32(data, *pos);
    *pos = *pos + 4;
    Ok(v)
}

/// Reads the bit patterns of `n` numbers at `pos` and moves `pos` behind them.
pub fn read_f32s(data: &[u8], pos: &mut usize, n: usize) -> (r: Result<Vec<u32>, String>)
    ensures
        match r {
            Ok(v) => {
                &&& holds(data@.len() as int, *old(pos) as int, n as int)
                &&& v@ == get32s(data@, *old(pos) as int, n as int)
                &&& *final(pos) == *old(pos) + 4 * n
            },
            Err(e) => {
                &&& !holds(data@.len() as int, *old(pos) as int, n as int)
                &&& e@ == "truncated f32 array"@
                &&& *final(pos) == *old(pos)
            },
        },
{
    if !enough(data.len(), *pos, n) {
        return Err(copy_of("truncated f32 array"));
    }
    let v: Vec<u32> = read32s(data, *pos, n);
    *pos = *pos + 4 * n;
    Ok(v)
}

/// Numbers can be read exactly if none of their bytes lies behind the end: four bytes for each
/// from the place on. What fits leaves room for fewer numbers too, and one byte less than is
/// needed is not enough.
pub proof fn law_room(len: int, pos: int, n: int, k: int)
    requires
        0 <= pos,
        0 <= n,
    ensures
        holds(len, pos, n) && pos <= k < pos + n + n + n + n ==> k < len,
        holds(len, pos, n) && 0 <= k <= n ==> holds(len, pos, k),
        holds(pos + n + n + n + n, pos, n),
        !holds(pos + n + n + n + n - 1, pos, n),
{
}


} // verus!
