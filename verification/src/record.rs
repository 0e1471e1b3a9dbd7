//! Resource records: address records in full, all others by their type
//! code, their length and their time to live.

use vstd::prelude::*;
use crate::buffer::{lemma_wrote_nothing, lemma_wrote_step, wrote, BytePacketBuffer};
use crate::error::DnsError;
use crate::emit::Emit;
use crate::name::{name_at, name_emit, name_text};
use crate::question::{QueryType, CLASS_IN};
use crate::wire::{be16, be32, u16_bytes, u32_bytes};

verus! {

/// Bytes of a record between its name and its payload: type, class, time to
/// live and payload length.
pub const RECORD_FIXED_LEN: usize = 10;

/// An IPv4 address, by its four octets in network order.
#[derive(Debug, Clone, Copy, PartialEq, Eq, PartialOrd, Ord, Hash, Structural)]
pub struct Ipv4Address(pub u8, pub u8, pub u8, pub u8);

impl Ipv4Address {
    /// The address `a.b.c.d`.
    pub fn new(a: u8, b: u8, c: u8, d: u8) -> (addr: Self)
        ensures
            addr == Ipv4Address(a, b, c, d),
    {
        Ipv4Address(a, b, c, d)
    }

    /// The four octets, first to last.
    pub fn octets(&self) -> (o: [u8; 4])
        ensures
            o@ == seq![self.0, self.1, self.2, self.3],
    {
        let o = [self.0, self.1, self.2, self.3];
        o
    }
}

/// A resource record.
#[derive(Debug, Clone, PartialEq, Eq, PartialOrd, Ord, Hash)]
pub enum DnsRecord {
    /// A record of a type that is not interpreted. Its payload is passed
    /// over when read, and not kept.
    UNKNOWN { domain: String, qtype: u16, data_len: u16, ttl: u32 },
    /// An address record.
    A { domain: String, addr: Ipv4Address, ttl: u32 },
}

/// A record as a value: the name as text.
pub enum RecordView {
    UNKNOWN { domain: Seq<char>, qtype: u16, data_len: u16, ttl: u32 },
    A { domain: Seq<char>, addr: Ipv4Address, ttl: u32 },
}

impl View for DnsRecord {
    type V = RecordView;

    open spec fn view(&self) -> RecordView {
        match *self {
            DnsRecord::UNKNOWN { domain, qtype, data_len, ttl } => RecordView::UNKNOWN {
                domain: domain@,
                qtype,
                data_len,
                ttl,
            },
            DnsRecord::A { domain, addr, ttl } => RecordView::A { domain: domain@, addr, ttl },
        }
    }
}

/// The record that starts at `pos`, and the position behind it.
///
/// After the name come two bytes of type, two of class, four of time to
/// live and two of payload length. An address record has four bytes of
/// payload whatever length it declares. Of any other record as many bytes
/// are passed over as it declares, and all of them must lie in the buffer.
pub open spec fn record_at(bytes: Seq<u8>, pos: int) -> Result<(RecordView, int), DnsError> {
    match name_at(bytes, pos, 0) {
        Ok((labels, next)) => {
            let payload = next + RECORD_FIXED_LEN;
            if payload > bytes.len() {
                Err(DnsError::BufferOverrun)
            } else if be16(bytes, next) == 1 {
                if payload + 4 > bytes.len() {
                    Err(DnsError::BufferOverrun)
                } else {
                    Ok(
                        (
                            RecordView::A {
                                domain: name_text(labels),
                                addr: Ipv4Address(
                                    bytes[payload],
                                    bytes[payload + 1],
                                    bytes[payload + 2],
                                    bytes[payload + 3],
                                ),
                                ttl: be32(bytes, next + 4),
                            },
                            payload + 4,
                        ),
                    )
                }
            } else {
                let data_len = be16(bytes, next + 8);
                if payload + data_len > bytes.len() {
                    Err(DnsError::BufferOverrun)
                } else {
                    Ok(
                        (
                            RecordView::UNKNOWN {
                                domain: name_text(labels),
                                qtype: be16(bytes, next),
                                data_len,
                                ttl: be32(bytes, next + 4),
                            },
                            payload + data_len,
                        ),
                    )
                }
            }
        },
        Err(e) => Err(e),
    }
}

/// What follows the name of an address record on the wire.
pub open spec fn address_wire(addr: Ipv4Address, ttl: u32) -> Seq<u8> {
    u16_bytes(1) + u16_bytes(CLASS_IN) + u32_bytes(ttl) + u16_bytes(4) + seq![
        addr.0,
        addr.1,
        addr.2,
        addr.3,
    ]
}

/// A record on the wire. Only an address record has bytes there: a record
/// of another type is left out.
pub open spec fn record_emit(r: RecordView) -> Emit {
    match r {
        RecordView::A { domain, addr, ttl } => name_emit(domain).followed_by(
            Emit::plain(address_wire(addr, ttl)),
        ),
        RecordView::UNKNOWN { .. } => Emit::plain(Seq::empty()),
    }
}

/// What a record's encoder returns: the number of bytes written, or why it
/// gave up.
pub open spec fn emit_count(e: Emit, room: int) -> Result<usize, DnsError> {
    match e.result(room) {
        Ok(_) => Ok(e.bytes.len() as usize),
        Err(err) => Err(err),
    }
}

impl DnsRecord {
    /// Reads the record under the cursor and moves the cursor behind it.
    /// Where the record cannot be read, the cursor stays.
    pub fn read(buf: &mut BytePacketBuffer) -> (r: Result<Self, DnsError>)
        ensures
            old(buf).wf() ==> final(buf).wf(),
            final(buf).buf == old(buf).buf,
            match record_at(old(buf).buf@, old(buf).pos as int) {
                Ok((rec, next)) => r is Ok && r->Ok_0@ == rec && final(buf).pos == next,
                Err(e) => r is Err && r->Err_0 == e && final(buf).pos == old(buf).pos,
            },
    {
        let (domain, next) = buf.get_qname(buf.pos())?;
        let qtype_num = buf.get_u16(next)?;
        let _class = buf.get_u16(next + 2)?;
        let ttl = buf.get_u32(next + 4)?;
        let data_len = buf.get_u16(next + 8)?;
        let payload = next + RECORD_FIXED_LEN;

        match QueryType::from(qtype_num) {
            QueryType::A => {
                let raw_addr = buf.get_u32(payload)?;
                let a = ((raw_addr >> 24) & 0xFF) as u8;
                let b = ((raw_addr >> 16) & 0xFF) as u8;
                let c = ((raw_addr >> 8) & 0xFF) as u8;
                let d = (raw_addr & 0xFF) as u8;
                proof {
                    let b0 = buf.buf@[payload as int];
                    let b1 = buf.buf@[payload + 1];
                    let b2 = buf.buf@[payload + 2];
                    let b3 = buf.buf@[payload + 3];
                    assert(a == b0 && b == b1 && c == b2 && d == b3) by (bit_vector)
                        requires
                            raw_addr == b0 * 16777216 + b1 * 65536 + b2 * 256 + b3,
                            a == ((raw_addr >> 24) & 0xFF) as u8,
                            b == ((raw_addr >> 16) & 0xFF) as u8,
                            c == ((raw_addr >> 8) & 0xFF) as u8,
                            d == (raw_addr & 0xFF) as u8,
                    ;
                }
                buf.seek(payload + 4)?;
                Ok(DnsRecord::A { domain, addr: Ipv4Address::new(a, b, c, d), ttl })
            },
            QueryType::UNKNOWN(_) => {
                buf.seek(payload + data_len as usize)?;
                Ok(DnsRecord::UNKNOWN { domain, qtype: qtype_num, data_len, ttl })
            },
        }
    }

    /// Writes the record at the cursor and returns the number of bytes
    /// written. A record of unknown type writes nothing.
    pub fn write(&self, buffer: &mut BytePacketBuffer) -> (r: Result<usize, DnsError>)
        ensures
            old(buffer).wf() ==> final(buffer).wf(),
            wrote(*old(buffer), *final(buffer), record_emit(self@).bytes),
            r == emit_count(record_emit(self@), old(buffer).room()),
    {
        let start_pos = buffer.pos();
        let ghost pre = *buffer;
        let ghost none = Seq::<u8>::empty();
        proof {
            lemma_wrote_nothing(pre);
        }
        match self {
            DnsRecord::A { domain, addr, ttl } => {
                let ghost name = name_emit(domain@);
                let ghost ty = u16_bytes(1);
                let ghost class = u16_bytes(CLASS_IN);
                let ghost life = u32_bytes(*ttl);
                let ghost len = u16_bytes(4);
                let ghost o0 = seq![addr.0];
                let ghost o1 = seq![addr.1];
                let ghost o2 = seq![addr.2];
                let ghost o3 = seq![addr.3];
                let ghost fixed = address_wire(*addr, *ttl);
                let ghost whole = name.bytes + fixed;

                let r = buffer.write_qname(domain.as_str());
                if r.is_err() {
                    proof {
                        if name.complete {
                            lemma_wrote_step(pre, pre, *buffer, none, name.bytes, fixed);
                        }
                    }
                    return Err(r.unwrap_err());
                }
                let ghost mid = *buffer;
                let r = buffer.write_u16(QueryType::A.code());
                proof {
                    lemma_wrote_step(
                        pre,
                        mid,
                        *buffer,
                        name.bytes,
                        ty,
                        class + life + len + o0 + o1 + o2 + o3,
                    );
                    assert(name.bytes + ty + (class + life + len + o0 + o1 + o2 + o3) =~= whole);
                }
                if r.is_err() {
                    return Err(r.unwrap_err());
                }
                let ghost sent = name.bytes + ty;
                let ghost mid = *buffer;
                let r = buffer.write_u16(CLASS_IN);
                proof {
                    lemma_wrote_step(pre, mid, *buffer, sent, class, life + len + o0 + o1 + o2 + o3);
                    assert(sent + class + (life + len + o0 + o1 + o2 + o3) =~= whole);
                }
                if r.is_err() {
                    return Err(r.unwrap_err());
                }
                let ghost sent = sent + class;
                let ghost mid = *buffer;
                let r = buffer.write_u32(*ttl);
                proof {
                    lemma_wrote_step(pre, mid, *buffer, sent, life, len + o0 + o1 + o2 + o3);
                    assert(sent + life + (len + o0 + o1 + o2 + o3) =~= whole);
                }
                if r.is_err() {
                    return Err(r.unwrap_err());
                }
                let ghost sent = sent + life;
                let ghost mid = *buffer;
                let r = buffer.write_u16(4);
                proof {
                    lemma_wrote_step(pre, mid, *buffer, sent, len, o0 + o1 + o2 + o3);
                    assert(sent + len + (o0 + o1 + o2 + o3) =~= whole);
                }
                if r.is_err() {
                    return Err(r.unwrap_err());
                }
                let ghost sent = sent + len;
                let octets = addr.octets();
                let ghost mid = *buffer;
                let r = buffer.write_u8(octets[0]);
                proof {
                    lemma_wrote_step(pre, mid, *buffer, sent, o0, o1 + o2 + o3);
                    assert(sent + o0 + (o1 + o2 + o3) =~= whole);
                }
                if r.is_err() {
                    return Err(r.unwrap_err());
                }
                let ghost sent = sent + o0;
                let ghost mid = *buffer;
                let r = buffer.write_u8(octets[1]);
                proof {
                    lemma_wrote_step(pre, mid, *buffer, sent, o1, o2 + o3);
                    assert(sent + o1 + (o2 + o3) =~= whole);
                }
                if r.is_err() {
                    return Err(r.unwrap_err());
                }
                let ghost sent = sent + o1;
                let ghost mid = *buffer;
                let r = buffer.write_u8(octets[2]);
                proof {
                    lemma_wrote_step(pre, mid, *buffer, sent, o2, o3);
                    assert(sent + o2 + o3 =~= whole);
                }
                if r.is_err() {
                    return Err(r.unwrap_err());
                }
                let ghost sent = sent + o2;
                let ghost mid = *buffer;
                let r = buffer.write_u8(octets[3]);
                proof {
                    lemma_wrote_step(pre, mid, *buffer, sent, o3, none);
                }
                if r.is_err() {
                    return Err(r.unwrap_err());
                }
            },
            DnsRecord::UNKNOWN { .. } => {},
        }
        Ok(buffer.pos() - start_pos)
    }
}

} // verus!
