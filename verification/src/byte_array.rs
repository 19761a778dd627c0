//! Sequential big-endian reader over an owned byte buffer.
//!
//! Every read advances the position by the consumed width; a read past the
//! end of the buffer fails with `TruncatedInput` and leaves the position
//! unchanged.

use vstd::prelude::*;

use crate::error::DecodeError;

verus! {

/// The unsigned big-endian 16-bit value stored at `pos` in `s`.
pub open spec fn be_u16_at(s: Seq<u8>, pos: int) -> u16
    recommends
        0 <= pos,
        pos + 2 <= s.len(),
{
    ((s[pos] as int) * 0x100 + (s[pos + 1] as int)) as u16
}

/// The unsigned big-endian 32-bit value stored at `pos` in `s`.
pub open spec fn be_u32_at(s: Seq<u8>, pos: int) -> u32
    recommends
        0 <= pos,
        pos + 4 <= s.len(),
{
    ((s[pos] as int) * 0x1000000 + (s[pos + 1] as int) * 0x10000 + (s[pos + 2] as int) * 0x100
        + (s[pos + 3] as int)) as u32
}

pub struct ByteArray {
    pub bytes: Vec<u8>,
    pub current: usize,
}

impl ByteArray {
    /// True when `n` more bytes lie between the position and the buffer end.
    pub open spec fn can_read(self, n: int) -> bool {
        self.current + n <= self.bytes@.len()
    }

    pub fn new(bytes: Vec<u8>, current: usize) -> (r: Self)
        ensures
            r.bytes@ == bytes@,
            r.current == current,
    {
        Self { bytes, current }
    }

    pub fn read_u8(&mut self) -> (r: Result<u8, DecodeError>)
        ensures
            final(self).bytes@ == old(self).bytes@,
            old(self).can_read(1) ==> {
                &&& final(self).current == old(self).current + 1
                &&& r == Ok::<u8, DecodeError>(old(self).bytes@[old(self).current as int])
            },
            !old(self).can_read(1) ==> {
                &&& final(self).current == old(self).current
                &&& r == Err::<u8, DecodeError>(DecodeError::TruncatedInput)
            },
    {
        if self.current < self.bytes.len() {
            let b = self.bytes[self.current];
            self.current = self.current + 1;
            Ok(b)
        } else {
            Err(DecodeError::TruncatedInput)
        }
    }

    pub fn read_u16(&mut self) -> (r: Result<u16, DecodeError>)
        ensures
            final(self).bytes@ == old(self).bytes@,
            old(self).can_read(2) ==> {
                &&& final(self).current == old(self).current + 2
                &&& r == Ok::<u16, DecodeError>(be_u16_at(old(self).bytes@, old(self).current as int))
            },
            !old(self).can_read(2) ==> {
                &&& final(self).current == old(self).current
                &&& r == Err::<u16, DecodeError>(DecodeError::TruncatedInput)
            },
    {
        if self.current <= self.bytes.len() && self.bytes.len() - self.current >= 2 {
            let b0 = self.bytes[self.current];
            let b1 = self.bytes[self.current + 1];
            self.current = self.current + 2;
            Ok((b0 as u16) * 0x100 + (b1 as u16))
        } else {
            Err(DecodeError::TruncatedInput)
        }
    }

    pub fn read_u32(&mut self) -> (r: Result<u32, DecodeError>)
        ensures
            final(self).bytes@ == old(self).bytes@,
            old(self).can_read(4) ==> {
                &&& final(self).current == old(self).current + 4
                &&& r == Ok::<u32, DecodeError>(be_u32_at(old(self).bytes@, old(self).current as int))
            },
            !old(self).can_read(4) ==> {
                &&& final(self).current == old(self).current
                &&& r == Err::<u32, DecodeError>(DecodeError::TruncatedInput)
            },
    {
        if self.current <= self.bytes.len() && self.bytes.len() - self.current >= 4 {
            let b0 = self.bytes[self.current];
            let b1 = self.bytes[self.current + 1];
            let b2 = self.bytes[self.current + 2];
            let b3 = self.bytes[self.current + 3];
            self.current = self.current + 4;
            Ok((b0 as u32) * 0x1000000 + (b1 as u32) * 0x10000 + (b2 as u32) * 0x100 + (b3 as u32))
        } else {
            Err(DecodeError::TruncatedInput)
        }
    }

    pub fn read_bytes(&mut self, size: usize) -> (r: Result<Vec<u8>, DecodeError>)
        ensures
            final(self).bytes@ == old(self).bytes@,
            old(self).can_read(size as int) ==> {
                &&& final(self).current == old(self).current + size
                &&& r matches Ok(v) && v@ == old(self).bytes@.subrange(
                    old(self).current as int,
                    old(self).current + size,
                )
            },
            !old(self).can_read(size as int) ==> {
                &&& final(self).current == old(self).current
                &&& r == Err::<Vec<u8>, DecodeError>(DecodeError::TruncatedInput)
            },
    {
        if self.current <= self.bytes.len() && size <= self.bytes.len() - self.current {
            let mut out: Vec<u8> = Vec::new();
            let mut i: usize = 0;
            while i < size
                invariant
                    i <= size,
                    self.current + size <= self.bytes@.len(),
                    self.bytes@.len() <= usize::MAX,
                    self.bytes@ == old(self).bytes@,
                    self.current == old(self).current,
                    out@ == self.bytes@.subrange(self.current as int, self.current + i),
                decreases size - i,
            {
                out.push(self.bytes[self.current + i]);
                i = i + 1;
                assert(out@ =~= self.bytes@.subrange(
                    self.current as int,
                    self.current + i,
                ));
            }
            self.current = self.current + size;
            Ok(out)
        } else {
            Err(DecodeError::TruncatedInput)
        }
    }

    pub fn len(&self) -> (r: usize)
        ensures
            r == self.bytes@.len(),
    {
        self.bytes.len()
    }
}

} // verus!
