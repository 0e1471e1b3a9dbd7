//! The packet buffer: 512 bytes and a cursor, with bounds-checked reads and
//! writes in network byte order.
//!
//! No operation reaches past the end of the buffer. A read that would do so
//! fails and leaves the cursor where it was. A write that would do so fails
//! too, after it has stored the bytes that fit: [`wrote`] says what the
//! buffer then holds.

use vstd::prelude::*;
use vstd::slice::slice_subrange;
use crate::error::DnsError;
use crate::wire::{be16, be32, overlay, u16_bytes, u32_bytes};

verus! {

/// Number of bytes in a packet buffer.
pub const CAPACITY: usize = 512;

/// Bounded byte storage with a cursor.
pub struct BytePacketBuffer {
    pub buf: [u8; 512],
    pub pos: usize,
}

/// A shorter name for the packet buffer.
pub type PacketBuffer = BytePacketBuffer;

/// The state `post` is what an attempt to write `data` at the cursor of
/// `pre` leaves behind: the bytes that fit are stored in order, the rest is
/// dropped, and the cursor has moved past what was stored.
pub open spec fn wrote(pre: BytePacketBuffer, post: BytePacketBuffer, data: Seq<u8>) -> bool {
    &&& post.buf@ == overlay(pre.buf@, pre.pos as int, data)
    &&& post.pos == pre.pos + if data.len() <= pre.room() {
        data.len() as int
    } else {
        pre.room()
    }
}

/// The result of an attempt to write `len` bytes where `room` bytes are left.
pub open spec fn write_result(room: int, len: nat) -> Result<(), DnsError> {
    if len <= room {
        Ok(())
    } else {
        Err(DnsError::BufferOverrun)
    }
}

/// Writing nothing leaves the buffer as it is.
pub proof fn lemma_wrote_nothing(pre: BytePacketBuffer)
    ensures
        wrote(pre, pre, Seq::empty()),
{
    assert(pre.buf@ =~= overlay(pre.buf@, pre.pos as int, Seq::empty()));
}

/// Writing `first` and then `second` is writing `first + second`.
pub proof fn lemma_wrote_append(
    pre: BytePacketBuffer,
    mid: BytePacketBuffer,
    post: BytePacketBuffer,
    first: Seq<u8>,
    second: Seq<u8>,
)
    requires
        wrote(pre, mid, first),
        wrote(mid, post, second),
    ensures
        wrote(pre, post, first + second),
{
    assert(post.buf@ =~= overlay(pre.buf@, pre.pos as int, first + second));
}

/// Once an attempt has run out of room, whatever would have followed leaves
/// no trace.
pub proof fn lemma_wrote_overflow(
    pre: BytePacketBuffer,
    post: BytePacketBuffer,
    first: Seq<u8>,
    second: Seq<u8>,
)
    requires
        wrote(pre, post, first),
        first.len() >= pre.room(),
    ensures
        wrote(pre, post, first + second),
{
    assert(post.buf@ =~= overlay(pre.buf@, pre.pos as int, first + second));
}

/// One more piece of a longer write: after `sent`, the piece `chunk` was
/// attempted, and `rest` is what would follow it. If the piece did not fit,
/// the buffer already is what the whole write leaves behind.
pub proof fn lemma_wrote_step(
    pre: BytePacketBuffer,
    mid: BytePacketBuffer,
    post: BytePacketBuffer,
    sent: Seq<u8>,
    chunk: Seq<u8>,
    rest: Seq<u8>,
)
    requires
        wrote(pre, mid, sent),
        sent.len() <= pre.room(),
        wrote(mid, post, chunk),
    ensures
        wrote(pre, post, sent + chunk),
        chunk.len() <= mid.room() <==> (sent + chunk).len() <= pre.room(),
        chunk.len() > mid.room() ==> wrote(pre, post, sent + chunk + rest),
{
    lemma_wrote_append(pre, mid, post, sent, chunk);
    if chunk.len() > mid.room() {
        lemma_wrote_overflow(pre, post, sent + chunk, rest);
    }
}

impl BytePacketBuffer {
    /// The cursor lies in the buffer or right behind its last byte. A new
    /// buffer is so, and no operation of this library ends that.
    pub open spec fn wf(&self) -> bool {
        self.pos <= CAPACITY
    }

    /// Bytes left between the cursor and the end of the buffer.
    pub open spec fn room(&self) -> int {
        if self.pos <= CAPACITY {
            CAPACITY - self.pos
        } else {
            0
        }
    }

    /// A zero-filled buffer with the cursor at the start.
    pub fn new() -> (r: Self)
        ensures
            r.wf(),
            r.pos == 0,
            r.buf@ == Seq::new(CAPACITY as nat, |i: int| 0u8),
    {
        let r = BytePacketBuffer { buf: [0; 512], pos: 0 };
        r
    }

    /// Current position within the buffer.
    pub fn pos(&self) -> (p: usize)
        ensures
            p == self.pos,
    {
        self.pos
    }

    /// Steps the cursor forward by `steps`, unless that leaves the buffer.
    pub fn step(&mut self, steps: usize) -> (r: Result<(), DnsError>)
        ensures
            old(self).wf() ==> final(self).wf(),
            r == if old(self).pos + steps <= CAPACITY {
                Ok::<(), DnsError>(())
            } else {
                Err(DnsError::BufferOverrun)
            },
            final(self).buf == old(self).buf,
            final(self).pos == if r is Ok {
                old(self).pos + steps
            } else {
                old(self).pos as int
            },
    {
        if steps > CAPACITY || self.pos > CAPACITY - steps {
            return Err(DnsError::BufferOverrun);
        }
        self.pos += steps;
        Ok(())
    }

    /// Moves the cursor to `pos`, unless that lies outside the buffer.
    pub fn seek(&mut self, pos: usize) -> (r: Result<(), DnsError>)
        ensures
            old(self).wf() ==> final(self).wf(),
            r == if pos <= CAPACITY {
                Ok::<(), DnsError>(())
            } else {
                Err(DnsError::BufferOverrun)
            },
            final(self).buf == old(self).buf,
            final(self).pos == if r is Ok {
                pos
            } else {
                old(self).pos
            },
    {
        if pos > CAPACITY {
            return Err(DnsError::BufferOverrun);
        }
        self.pos = pos;
        Ok(())
    }

    /// Reads the byte under the cursor and moves one step forward.
    pub fn read(&mut self) -> (r: Result<u8, DnsError>)
        ensures
            old(self).wf() ==> final(self).wf(),
            r == if old(self).pos < CAPACITY {
                Ok::<u8, DnsError>(old(self).buf@[old(self).pos as int])
            } else {
                Err(DnsError::BufferOverrun)
            },
            final(self).buf == old(self).buf,
            final(self).pos == if r is Ok {
                old(self).pos + 1
            } else {
                old(self).pos as int
            },
    {
        let res = self.get(self.pos)?;
        self.pos += 1;
        Ok(res)
    }

    /// The byte at `pos`; the cursor stays where it is.
    pub fn get(&self, pos: usize) -> (r: Result<u8, DnsError>)
        ensures
            r == if pos < CAPACITY {
                Ok::<u8, DnsError>(self.buf@[pos as int])
            } else {
                Err(DnsError::BufferOverrun)
            },
    {
        if pos >= CAPACITY {
            return Err(DnsError::BufferOverrun);
        }
        Ok(self.buf[pos])
    }

    /// The `len` bytes from `start` on; the cursor stays where it is. A
    /// range may end with the last byte of the buffer, as a single byte may
    /// be the last one.
    pub fn get_range(&self, start: usize, len: usize) -> (r: Result<&[u8], DnsError>)
        ensures
            match r {
                Ok(range) => start + len <= CAPACITY && range@ == self.buf@.subrange(
                    start as int,
                    start + len,
                ),
                Err(e) => start + len > CAPACITY && e == DnsError::BufferOverrun,
            },
    {
        if len > CAPACITY || start > CAPACITY - len {
            return Err(DnsError::BufferOverrun);
        }
        Ok(slice_subrange(self.buf.as_slice(), start, start + len))
    }

    /// The 16-bit integer at `pos`, in network order; the cursor stays where
    /// it is.
    pub fn get_u16(&self, pos: usize) -> (r: Result<u16, DnsError>)
        ensures
            r == if pos + 2 <= CAPACITY {
                Ok::<u16, DnsError>(be16(self.buf@, pos as int))
            } else {
                Err(DnsError::BufferOverrun)
            },
    {
        if pos > CAPACITY - 2 {
            return Err(DnsError::BufferOverrun);
        }
        let hi = self.buf[pos];
        let lo = self.buf[pos + 1];
        let res = ((hi as u16) << 8) | (lo as u16);
        assert(res == hi * 256 + lo) by (bit_vector)
            requires
                res == ((hi as u16) << 8) | (lo as u16),
        ;
        Ok(res)
    }

    /// The 32-bit integer at `pos`, in network order; the cursor stays where
    /// it is.
    pub fn get_u32(&self, pos: usize) -> (r: Result<u32, DnsError>)
        ensures
            r == if pos + 4 <= CAPACITY {
                Ok::<u32, DnsError>(be32(self.buf@, pos as int))
            } else {
                Err(DnsError::BufferOverrun)
            },
    {
        if pos > CAPACITY - 4 {
            return Err(DnsError::BufferOverrun);
        }
        let b0 = self.buf[pos];
        let b1 = self.buf[pos + 1];
        let b2 = self.buf[pos + 2];
        let b3 = self.buf[pos + 3];
        let res = ((b0 as u32) << 24) | ((b1 as u32) << 16) | ((b2 as u32) << 8) | (b3 as u32);
        assert(res == b0 * 16777216 + b1 * 65536 + b2 * 256 + b3) by (bit_vector)
            requires
                res == ((b0 as u32) << 24) | ((b1 as u32) << 16) | ((b2 as u32) << 8) | (b3 as u32),
        ;
        Ok(res)
    }

    /// Reads two bytes as one integer, stepping two steps forward. Where
    /// fewer than two bytes are left, nothing is consumed.
    pub fn read_u16(&mut self) -> (r: Result<u16, DnsError>)
        ensures
            old(self).wf() ==> final(self).wf(),
            r == if old(self).pos + 2 <= CAPACITY {
                Ok::<u16, DnsError>(be16(old(self).buf@, old(self).pos as int))
            } else {
                Err(DnsError::BufferOverrun)
            },
            final(self).buf == old(self).buf,
            final(self).pos == if r is Ok {
                old(self).pos + 2
            } else {
                old(self).pos as int
            },
    {
        let res = self.get_u16(self.pos)?;
        self.pos += 2;
        Ok(res)
    }

    /// Reads four bytes as one integer, stepping four steps forward. Where
    /// fewer than four bytes are left, nothing is consumed.
    pub fn read_u32(&mut self) -> (r: Result<u32, DnsError>)
        ensures
            old(self).wf() ==> final(self).wf(),
            r == if old(self).pos + 4 <= CAPACITY {
                Ok::<u32, DnsError>(be32(old(self).buf@, old(self).pos as int))
            } else {
                Err(DnsError::BufferOverrun)
            },
            final(self).buf == old(self).buf,
            final(self).pos == if r is Ok {
                old(self).pos + 4
            } else {
                old(self).pos as int
            },
    {
        let res = self.get_u32(self.pos)?;
        self.pos += 4;
        Ok(res)
    }

    /// Stores `val` under the cursor and moves one step forward.
    pub fn write(&mut self, val: u8) -> (r: Result<(), DnsError>)
        ensures
            old(self).wf() ==> final(self).wf(),
            wrote(*old(self), *final(self), seq![val]),
            r == write_result(old(self).room(), 1),
    {
        if self.pos >= CAPACITY {
            assert(self.buf@ =~= overlay(self.buf@, self.pos as int, seq![val]));
            return Err(DnsError::BufferOverrun);
        }
        self.buf[self.pos] = val;
        self.pos += 1;
        assert(self.buf@ =~= overlay(old(self).buf@, old(self).pos as int, seq![val]));
        Ok(())
    }

    /// Writes one byte at the cursor.
    pub fn write_u8(&mut self, val: u8) -> (r: Result<(), DnsError>)
        ensures
            old(self).wf() ==> final(self).wf(),
            wrote(*old(self), *final(self), seq![val]),
            r == write_result(old(self).room(), 1),
    {
        self.write(val)
    }

    /// Writes `val` at the cursor in network order, byte by byte: where only
    /// one byte is left, the high byte is stored before the call fails.
    pub fn write_u16(&mut self, val: u16) -> (r: Result<(), DnsError>)
        ensures
            old(self).wf() ==> final(self).wf(),
            wrote(*old(self), *final(self), u16_bytes(val)),
            r == write_result(old(self).room(), 2),
    {
        let hi = (val >> 8) as u8;
        let lo = (val & 0xFF) as u8;
        assert(hi == val / 256 && lo == val % 256) by (bit_vector)
            requires
                hi == (val >> 8) as u8,
                lo == (val & 0xFF) as u8,
        ;
        assert(u16_bytes(val) =~= seq![hi] + seq![lo]);
        let ghost pre = *self;
        let first = self.write(hi);
        if first.is_err() {
            proof {
                lemma_wrote_overflow(pre, *self, seq![hi], seq![lo]);
            }
            return first;
        }
        let ghost mid = *self;
        let second = self.write(lo);
        proof {
            lemma_wrote_append(pre, mid, *self, seq![hi], seq![lo]);
        }
        second
    }

    /// Writes `val` at the cursor in network order, byte by byte.
    pub fn write_u32(&mut self, val: u32) -> (r: Result<(), DnsError>)
        ensures
            old(self).wf() ==> final(self).wf(),
            wrote(*old(self), *final(self), u32_bytes(val)),
            r == write_result(old(self).room(), 4),
    {
        let hi = (val >> 16) as u16;
        let lo = (val & 0xFFFF) as u16;
        assert(hi == val / 65536 && lo == val % 65536 && hi / 256 == val / 16777216 && hi % 256 == (
        val / 65536) % 256 && lo / 256 == (val / 256) % 256 && lo % 256 == val % 256)
            by (bit_vector)
            requires
                hi == (val >> 16) as u16,
                lo == (val & 0xFFFF) as u16,
        ;
        assert(u32_bytes(val) =~= u16_bytes(hi) + u16_bytes(lo));
        let ghost pre = *self;
        let first = self.write_u16(hi);
        if first.is_err() {
            proof {
                lemma_wrote_overflow(pre, *self, u16_bytes(hi), u16_bytes(lo));
            }
            return first;
        }
        let ghost mid = *self;
        let second = self.write_u16(lo);
        proof {
            lemma_wrote_append(pre, mid, *self, u16_bytes(hi), u16_bytes(lo));
        }
        second
    }

    /// Writes `data` at the cursor, byte by byte.
    pub fn write_bytes(&mut self, data: &[u8]) -> (r: Result<(), DnsError>)
        ensures
            old(self).wf() ==> final(self).wf(),
            wrote(*old(self), *final(self), data@),
            r == write_result(old(self).room(), data@.len()),
    {
        let ghost pre = *self;
        let mut i: usize = 0;
        proof {
            lemma_wrote_nothing(pre);
            assert(data@.take(0) =~= Seq::<u8>::empty());
        }
        while i < data.len()
            invariant
                pre == *old(self),
                i <= data@.len(),
                i <= pre.room(),
                wrote(pre, *self, data@.take(i as int)),
            decreases data@.len() - i,
        {
            let ghost mid = *self;
            let one = self.write_u8(data[i]);
            proof {
                assert(data@.take(i as int) + seq![data@[i as int]] =~= data@.take(i + 1));
                lemma_wrote_append(pre, mid, *self, data@.take(i as int), seq![data@[i as int]]);
            }
            if one.is_err() {
                proof {
                    assert(data@.take(i + 1) + data@.skip(i + 1) =~= data@);
                    lemma_wrote_overflow(pre, *self, data@.take(i + 1), data@.skip(i + 1));
                }
                return one;
            }
            i += 1;
        }
        assert(data@.take(i as int) =~= data@);
        Ok(())
    }
}

} // verus!
