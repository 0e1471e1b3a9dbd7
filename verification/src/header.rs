//! The twelve-byte header: an id, two bytes of flags, four section counts.

use vstd::prelude::*;
use vstd::std_specs::convert::FromSpecImpl;
use crate::buffer::{
    lemma_wrote_nothing, lemma_wrote_step, write_result, wrote, BytePacketBuffer, CAPACITY,
};
use crate::error::DnsError;
use crate::wire::{be16, u16_bytes};

verus! {

/// Number of bytes in a header.
pub const HEADER_LEN: usize = 12;

/// The result code of a response.
#[derive(Debug, Clone, Copy, PartialEq, Eq, Hash, Structural)]
pub enum ResultCode {
    NOERROR,
    FORMERR,
    SERVFAIL,
    NXDOMAIN,
    NOTIMP,
    REFUSED,
}

impl ResultCode {
    /// The number of the code on the wire.
    pub open spec fn spec_code(self) -> u8 {
        match self {
            ResultCode::NOERROR => 0,
            ResultCode::FORMERR => 1,
            ResultCode::SERVFAIL => 2,
            ResultCode::NXDOMAIN => 3,
            ResultCode::NOTIMP => 4,
            ResultCode::REFUSED => 5,
        }
    }

    /// The code with the number `n`; a number that names no code counts as
    /// `NOERROR`.
    pub open spec fn of_code(n: u8) -> ResultCode {
        if n == 1 {
            ResultCode::FORMERR
        } else if n == 2 {
            ResultCode::SERVFAIL
        } else if n == 3 {
            ResultCode::NXDOMAIN
        } else if n == 4 {
            ResultCode::NOTIMP
        } else if n == 5 {
            ResultCode::REFUSED
        } else {
            ResultCode::NOERROR
        }
    }

    /// The number of the code on the wire.
    #[verifier::when_used_as_spec(spec_code)]
    pub fn code(self) -> (n: u8)
        ensures
            n == self.spec_code(),
    {
        match self {
            ResultCode::NOERROR => 0,
            ResultCode::FORMERR => 1,
            ResultCode::SERVFAIL => 2,
            ResultCode::NXDOMAIN => 3,
            ResultCode::NOTIMP => 4,
            ResultCode::REFUSED => 5,
        }
    }
}

impl From<u8> for ResultCode {
    /// The code with the number `n`; a number that names no code counts as
    /// `NOERROR`.
    fn from(n: u8) -> (r: Self) {
        match n {
            1 => ResultCode::FORMERR,
            2 => ResultCode::SERVFAIL,
            3 => ResultCode::NXDOMAIN,
            4 => ResultCode::NOTIMP,
            5 => ResultCode::REFUSED,
            _ => ResultCode::NOERROR,
        }
    }
}

impl FromSpecImpl<u8> for ResultCode {
    open spec fn obeys_from_spec() -> bool {
        true
    }

    open spec fn from_spec(n: u8) -> Self {
        ResultCode::of_code(n)
    }
}

/// The header of a message.
#[derive(Debug, Clone, Copy, PartialEq, Eq, Structural)]
pub struct DnsHeader {
    pub id: u16,
    pub recursion_desired: bool,
    pub truncated_message: bool,
    pub authoritative_answer: bool,
    pub opcode: u8,
    pub response: bool,
    pub rescode: ResultCode,
    pub checking_disabled: bool,
    pub authed_data: bool,
    pub z: bool,
    pub recursion_available: bool,
    pub questions: u16,
    pub answers: u16,
    pub authoritative_entries: u16,
    pub resource_entries: u16,
}

/// The header that the twelve bytes at `pos` spell.
///
/// In the first flags byte, bit 0 is recursion-desired, bit 1 truncated,
/// bit 2 authoritative-answer, bits 3 to 6 the opcode and bit 7 response. In
/// the second, bits 0 to 3 are the result code, bit 4 is checking-disabled,
/// bit 5 authenticated-data, bit 6 the reserved bit and bit 7
/// recursion-available.
pub open spec fn header_at(bytes: Seq<u8>, pos: int) -> DnsHeader {
    let a = bytes[pos + 2];
    let b = bytes[pos + 3];
    DnsHeader {
        id: be16(bytes, pos),
        recursion_desired: a & 0x01 != 0,
        truncated_message: a & 0x02 != 0,
        authoritative_answer: a & 0x04 != 0,
        opcode: (a >> 3) & 0x0F,
        response: a & 0x80 != 0,
        rescode: ResultCode::of_code(b & 0x0F),
        checking_disabled: b & 0x10 != 0,
        authed_data: b & 0x20 != 0,
        z: b & 0x40 != 0,
        recursion_available: b & 0x80 != 0,
        questions: be16(bytes, pos + 4),
        answers: be16(bytes, pos + 6),
        authoritative_entries: be16(bytes, pos + 8),
        resource_entries: be16(bytes, pos + 10),
    }
}

/// `mask` if the flag is set, else no bit.
pub open spec fn flag(set: bool, mask: u8) -> u8 {
    if set {
        mask
    } else {
        0
    }
}

/// `mask` if the flag is set, else no bit.
#[verifier::when_used_as_spec(flag)]
fn flag_bits(set: bool, mask: u8) -> (bits: u8)
    ensures
        bits == flag(set, mask),
{
    if set {
        mask
    } else {
        0
    }
}

/// The first flags byte of `h`. Of an opcode above 15 only the low four
/// bits stay below the response bit: bit 4 falls on it, the rest is lost.
pub open spec fn flags_high(h: DnsHeader) -> u8 {
    flag(h.recursion_desired, 0x01) | flag(h.truncated_message, 0x02) | flag(
        h.authoritative_answer,
        0x04,
    ) | (h.opcode << 3) | flag(h.response, 0x80)
}

/// The second flags byte of `h`.
pub open spec fn flags_low(h: DnsHeader) -> u8 {
    h.rescode.code() | flag(h.checking_disabled, 0x10) | flag(h.authed_data, 0x20) | flag(
        h.z,
        0x40,
    ) | flag(h.recursion_available, 0x80)
}

/// The twelve bytes of `h` on the wire.
pub open spec fn header_wire(h: DnsHeader) -> Seq<u8> {
    u16_bytes(h.id) + seq![flags_high(h), flags_low(h)] + u16_bytes(h.questions) + u16_bytes(
        h.answers,
    ) + u16_bytes(h.authoritative_entries) + u16_bytes(h.resource_entries)
}

impl DnsHeader {
    /// The header with id 0, no flag set, opcode 0, `NOERROR`, and all
    /// counts 0.
    pub open spec fn spec_new() -> DnsHeader {
        DnsHeader {
            id: 0,
            recursion_desired: false,
            truncated_message: false,
            authoritative_answer: false,
            opcode: 0,
            response: false,
            rescode: ResultCode::NOERROR,
            checking_disabled: false,
            authed_data: false,
            z: false,
            recursion_available: false,
            questions: 0,
            answers: 0,
            authoritative_entries: 0,
            resource_entries: 0,
        }
    }

    /// A header with id 0, no flag set, opcode 0, `NOERROR`, and all counts 0.
    #[verifier::when_used_as_spec(spec_new)]
    pub fn new() -> (h: Self)
        ensures
            h == Self::spec_new(),
    {
        DnsHeader {
            id: 0,
            recursion_desired: false,
            truncated_message: false,
            authoritative_answer: false,
            opcode: 0,
            response: false,
            rescode: ResultCode::NOERROR,
            checking_disabled: false,
            authed_data: false,
            z: false,
            recursion_available: false,
            questions: 0,
            answers: 0,
            authoritative_entries: 0,
            resource_entries: 0,
        }
    }

    /// Reads the header under the cursor into `self` and moves the cursor
    /// behind it. Where fewer than twelve bytes are left, nothing changes.
    pub fn read(&mut self, buf: &mut BytePacketBuffer) -> (r: Result<(), DnsError>)
        ensures
            old(buf).wf() ==> final(buf).wf(),
            final(buf).buf == old(buf).buf,
            r == if old(buf).pos + HEADER_LEN <= CAPACITY {
                Ok::<(), DnsError>(())
            } else {
                Err(DnsError::BufferOverrun)
            },
            r is Ok ==> *final(self) == header_at(old(buf).buf@, old(buf).pos as int)
                && final(buf).pos == old(buf).pos + HEADER_LEN,
            r is Err ==> *final(self) == *old(self) && final(buf).pos == old(buf).pos,
    {
        let start = buf.pos();
        if start > CAPACITY - HEADER_LEN {
            return Err(DnsError::BufferOverrun);
        }
        let id = buf.get_u16(start)?;
        let flags = buf.get_u16(start + 2)?;
        let a = (flags >> 8) as u8;
        let b = (flags & 0xFF) as u8;
        let ghost hi = buf.buf@[start + 2];
        let ghost lo = buf.buf@[start + 3];
        assert(a == hi && b == lo) by (bit_vector)
            requires
                flags == hi * 256 + lo,
                a == (flags >> 8) as u8,
                b == (flags & 0xFF) as u8,
        ;
        let questions = buf.get_u16(start + 4)?;
        let answers = buf.get_u16(start + 6)?;
        let authoritative_entries = buf.get_u16(start + 8)?;
        let resource_entries = buf.get_u16(start + 10)?;
        buf.seek(start + HEADER_LEN)?;

        self.id = id;
        self.recursion_desired = a & 0x01 != 0;
        self.truncated_message = a & 0x02 != 0;
        self.authoritative_answer = a & 0x04 != 0;
        self.opcode = (a >> 3) & 0x0F;
        self.response = a & 0x80 != 0;
        self.rescode = ResultCode::from(b & 0x0F);
        self.checking_disabled = b & 0x10 != 0;
        self.authed_data = b & 0x20 != 0;
        self.z = b & 0x40 != 0;
        self.recursion_available = b & 0x80 != 0;
        self.questions = questions;
        self.answers = answers;
        self.authoritative_entries = authoritative_entries;
        self.resource_entries = resource_entries;
        Ok(())
    }

    /// Writes the header at the cursor, field by field.
    pub fn write(&self, buf: &mut BytePacketBuffer) -> (r: Result<(), DnsError>)
        ensures
            old(buf).wf() ==> final(buf).wf(),
            wrote(*old(buf), *final(buf), header_wire(*self)),
            r == write_result(old(buf).room(), HEADER_LEN as nat),
    {
        let ghost pre = *buf;
        let ghost id = u16_bytes(self.id);
        let ghost hi = seq![flags_high(*self)];
        let ghost lo = seq![flags_low(*self)];
        let ghost qd = u16_bytes(self.questions);
        let ghost an = u16_bytes(self.answers);
        let ghost ns = u16_bytes(self.authoritative_entries);
        let ghost ar = u16_bytes(self.resource_entries);
        let ghost whole = header_wire(*self);
        let ghost none = Seq::<u8>::empty();

        let r = buf.write_u16(self.id);
        proof {
            lemma_wrote_nothing(pre);
            lemma_wrote_step(pre, pre, *buf, none, id, hi + lo + qd + an + ns + ar);
            assert(none + id + (hi + lo + qd + an + ns + ar) =~= whole);
        }
        if r.is_err() {
            return r;
        }
        let high = flag_bits(self.recursion_desired, 0x01) | flag_bits(
            self.truncated_message,
            0x02,
        ) | flag_bits(self.authoritative_answer, 0x04) | (self.opcode << 3) | flag_bits(
            self.response,
            0x80,
        );
        let low = self.rescode.code() | flag_bits(self.checking_disabled, 0x10) | flag_bits(
            self.authed_data,
            0x20,
        ) | flag_bits(self.z, 0x40) | flag_bits(self.recursion_available, 0x80);
        let ghost mid = *buf;
        let r = buf.write_u8(high);
        proof {
            lemma_wrote_step(pre, mid, *buf, id, hi, lo + qd + an + ns + ar);
            assert(id + hi + (lo + qd + an + ns + ar) =~= whole);
        }
        if r.is_err() {
            return r;
        }
        let ghost mid = *buf;
        let r = buf.write_u8(low);
        proof {
            lemma_wrote_step(pre, mid, *buf, id + hi, lo, qd + an + ns + ar);
            assert(id + hi + lo + (qd + an + ns + ar) =~= whole);
        }
        if r.is_err() {
            return r;
        }
        let ghost mid = *buf;
        let r = buf.write_u16(self.questions);
        proof {
            lemma_wrote_step(pre, mid, *buf, id + hi + lo, qd, an + ns + ar);
            assert(id + hi + lo + qd + (an + ns + ar) =~= whole);
        }
        if r.is_err() {
            return r;
        }
        let ghost mid = *buf;
        let r = buf.write_u16(self.answers);
        proof {
            lemma_wrote_step(pre, mid, *buf, id + hi + lo + qd, an, ns + ar);
            assert(id + hi + lo + qd + an + (ns + ar) =~= whole);
        }
        if r.is_err() {
            return r;
        }
        let ghost mid = *buf;
        let r = buf.write_u16(self.authoritative_entries);
        proof {
            lemma_wrote_step(pre, mid, *buf, id + hi + lo + qd + an, ns, ar);
            assert(id + hi + lo + qd + an + ns + ar =~= whole);
        }
        if r.is_err() {
            return r;
        }
        let ghost mid = *buf;
        let r = buf.write_u16(self.resource_entries);
        proof {
            lemma_wrote_step(pre, mid, *buf, id + hi + lo + qd + an + ns, ar, none);
        }
        r
    }
}

} // verus!
