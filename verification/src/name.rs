//! Domain names on the wire: length-prefixed labels closed by a zero byte,
//! with compression pointers on the way in and none on the way out.

use vstd::prelude::*;
use vstd::slice::slice_subrange;
use vstd::string::StringExecFns;
use vstd::utf8::encode_utf8;
use crate::buffer::{
    lemma_wrote_append, lemma_wrote_nothing, lemma_wrote_overflow, wrote, BytePacketBuffer,
    CAPACITY,
};
use crate::emit::Emit;
use crate::error::DnsError;
use crate::text::{decode_label, label_text};

verus! {

/// How many compression pointers one name may follow.
pub const MAX_JUMPS: usize = 5;

/// The longest label that can be encoded.
pub const MAX_LABEL_LEN: usize = 63;

/// The byte that parts the labels of a name in text: a full stop.
pub const DOT: u8 = 46;

/// A length byte with its top two bits set starts a compression pointer.
pub open spec fn is_pointer(b: u8) -> bool {
    b & 0xC0 == 0xC0
}

/// The offset that a pointer names: the low six bits of its first byte,
/// then its second byte.
pub open spec fn pointer_target(b1: u8, b2: u8) -> int {
    (b1 & 0x3F) * 256 + b2
}

/// The name that starts at `pos`, after `hops` pointers have been followed
/// already: its labels as raw bytes, and the position at which the reader
/// goes on. That position lies behind the first pointer if there is one, and
/// behind the closing zero byte if there is none.
///
/// A name may lead over `MAX_JUMPS` pointers; one more is a compression
/// loop. Every byte of the name, and both bytes of every pointer, must lie
/// in `bytes`.
pub open spec fn name_at(bytes: Seq<u8>, pos: int, hops: nat) -> Result<
    (Seq<Seq<u8>>, int),
    DnsError,
>
    decreases MAX_JUMPS + 1 - hops, bytes.len() - pos,
{
    if hops > MAX_JUMPS {
        Err(DnsError::CompressionLoop)
    } else if pos < 0 || pos >= bytes.len() {
        Err(DnsError::BufferOverrun)
    } else if is_pointer(bytes[pos]) {
        if pos + 1 >= bytes.len() {
            Err(DnsError::BufferOverrun)
        } else {
            match name_at(bytes, pointer_target(bytes[pos], bytes[pos + 1]), hops + 1) {
                Ok((labels, _)) => Ok((labels, pos + 2)),
                Err(e) => Err(e),
            }
        }
    } else if bytes[pos] == 0 {
        Ok((Seq::empty(), pos + 1))
    } else {
        let end = pos + 1 + bytes[pos];
        if end > bytes.len() {
            Err(DnsError::BufferOverrun)
        } else {
            match name_at(bytes, end, hops) {
                Ok((labels, next)) => Ok((seq![bytes.subrange(pos + 1, end)] + labels, next)),
                Err(e) => Err(e),
            }
        }
    }
}

/// The text of a name: the text of each label, joined by full stops.
pub open spec fn name_text(labels: Seq<Seq<u8>>) -> Seq<char>
    decreases labels.len(),
{
    if labels.len() == 0 {
        Seq::empty()
    } else if labels.len() == 1 {
        label_text(labels[0])
    } else {
        name_text(labels.drop_last()) + seq!['.'] + label_text(labels.last())
    }
}

/// Where the label that starts at `from` ends: at the next full stop, or at
/// the end of the name.
pub open spec fn label_end(name: Seq<u8>, from: int) -> int
    decreases name.len() - from,
{
    if from < 0 || from >= name.len() || name[from] == DOT {
        from
    } else {
        label_end(name, from + 1)
    }
}

/// The labels of the part of a name that starts at `from`.
pub open spec fn labels_from(name: Seq<u8>, from: int) -> Seq<Seq<u8>>
    decreases name.len() - from,
{
    let end = label_end(name, from);
    if from < 0 || from > name.len() {
        Seq::empty()
    } else if end < from || end >= name.len() {
        seq![name.subrange(from, name.len() as int)]
    } else {
        seq![name.subrange(from, end)] + labels_from(name, end + 1)
    }
}

/// A name split at its full stops. The empty name is one empty label.
pub open spec fn split_labels(name: Seq<u8>) -> Seq<Seq<u8>> {
    labels_from(name, 0)
}

/// One label on the wire: its length, then its bytes.
pub open spec fn label_wire(label: Seq<u8>) -> Seq<u8> {
    seq![label.len() as u8] + label
}

/// The labels on the wire, one after the other, and the closing zero byte.
pub open spec fn labels_emit(labels: Seq<Seq<u8>>) -> Emit
    decreases labels.len(),
{
    if labels.len() == 0 {
        Emit::plain(seq![0u8])
    } else if labels[0].len() > MAX_LABEL_LEN {
        Emit { bytes: Seq::empty(), complete: false }
    } else {
        Emit::plain(label_wire(labels[0])).followed_by(labels_emit(labels.drop_first()))
    }
}

/// A name on the wire: its UTF-8 bytes, split at the full stops.
pub open spec fn name_emit(name: Seq<char>) -> Emit {
    labels_emit(split_labels(encode_utf8(name)))
}

/// The end of a label lies between its start and the end of the name.
pub proof fn lemma_label_end_bounds(name: Seq<u8>, from: int)
    requires
        0 <= from <= name.len(),
    ensures
        from <= label_end(name, from) <= name.len(),
        label_end(name, from) < name.len() ==> name[label_end(name, from)] == DOT,
        forall|i: int| from <= i < label_end(name, from) ==> name[i] != DOT,
    decreases name.len() - from,
{
    if from < name.len() && name[from] != DOT {
        lemma_label_end_bounds(name, from + 1);
    }
}

impl BytePacketBuffer {
    /// Decodes the name that starts at `pos` and says where the reader goes
    /// on; the cursor stays where it is.
    pub fn get_qname(&self, pos: usize) -> (r: Result<(String, usize), DnsError>)
        ensures
            match name_at(self.buf@, pos as int, 0) {
                Ok((labels, next)) => {
                    &&& r is Ok
                    &&& r->Ok_0.0@ == name_text(labels)
                    &&& r->Ok_0.1 == next
                    &&& next <= CAPACITY
                },
                Err(e) => r is Err && r->Err_0 == e,
            },
    {
        let mut at = pos;
        let mut jumped = false;
        let mut resume: usize = 0;
        let mut jumps: usize = 0;
        let mut name = String::new();
        let mut first = true;
        let ghost mut done: Seq<Seq<u8>> = Seq::empty();
        loop
            invariant_except_break
                name_at(self.buf@, pos as int, 0) == (match name_at(
                    self.buf@,
                    at as int,
                    jumps as nat,
                ) {
                    Ok((rest, next)) => Ok(
                        (
                            done + rest,
                            if jumped {
                                resume as int
                            } else {
                                next
                            },
                        ),
                    ),
                    Err(e) => Err(e),
                }),
            invariant
                jumps <= MAX_JUMPS + 1,
                name@ == name_text(done),
                first == (done.len() == 0),
                jumped ==> resume <= CAPACITY,
            ensures
                at <= CAPACITY,
                name_at(self.buf@, pos as int, 0) == Ok::<(Seq<Seq<u8>>, int), DnsError>(
                    (
                        done,
                        if jumped {
                            resume as int
                        } else {
                            at as int
                        },
                    ),
                ),
            decreases MAX_JUMPS + 1 - jumps, CAPACITY - at,
        {
            if jumps > MAX_JUMPS {
                return Err(DnsError::CompressionLoop);
            }
            let len = self.get(at)?;
            if (len & 0xC0) == 0xC0 {
                if !jumped {
                    resume = at + 2;
                }
                let b2 = self.get(at + 1)?;
                let offset = (((len as u16) ^ 0xC0) << 8) | (b2 as u16);
                assert(offset == (len & 0x3F) * 256 + b2) by (bit_vector)
                    requires
                        len & 0xC0 == 0xC0,
                        offset == (((len as u16) ^ 0xC0) << 8) | (b2 as u16),
                ;
                at = offset as usize;
                jumped = true;
                jumps += 1;
            } else {
                at += 1;
                if len == 0 {
                    break ;
                }
                let label = self.get_range(at, len as usize)?;
                if !first {
                    proof {
                        reveal_strlit(".");
                    }
                    name.append(".");
                }
                let text = decode_label(label);
                name.append(text.as_str());
                proof {
                    let grown = done.push(label@);
                    assert(grown.drop_last() =~= done);
                    assert(forall|rest: Seq<Seq<u8>>| done + (seq![label@] + rest) == grown + rest);
                    done = grown;
                }
                first = false;
                at += len as usize;
            }
        }
        if !jumped {
            resume = at;
        }
        Ok((name, resume))
    }

    /// Reads the name under the cursor and appends its text to `outstr`. The
    /// cursor moves behind the name: behind its first pointer if it has one.
    /// Where the name cannot be read, neither the cursor nor `outstr`
    /// changes.
    pub fn read_qname(&mut self, outstr: &mut String) -> (r: Result<(), DnsError>)
        ensures
            old(self).wf() ==> final(self).wf(),
            final(self).buf == old(self).buf,
            match name_at(old(self).buf@, old(self).pos as int, 0) {
                Ok((labels, next)) => {
                    &&& r is Ok
                    &&& final(self).pos == next
                    &&& final(outstr)@ == old(outstr)@ + name_text(labels)
                },
                Err(e) => {
                    &&& r == Err::<(), DnsError>(e)
                    &&& final(self).pos == old(self).pos
                    &&& *final(outstr) == *old(outstr)
                },
            },
    {
        let (name, next) = self.get_qname(self.pos)?;
        self.pos = next;
        outstr.append(name.as_str());
        Ok(())
    }

    /// Writes `qname` in labels: for each part between full stops its length
    /// and its bytes, then a zero byte. No compression pointer is written.
    /// Where a label is longer than 63 bytes, the labels before it are
    /// written and the call fails.
    pub fn write_qname(&mut self, qname: &str) -> (r: Result<(), DnsError>)
        ensures
            old(self).wf() ==> final(self).wf(),
            wrote(*old(self), *final(self), name_emit(qname@).bytes),
            r == name_emit(qname@).result(old(self).room()),
    {
        let bytes = qname.as_bytes();
        let n = bytes.len();
        let ghost pre = *self;
        let ghost whole = labels_emit(split_labels(bytes@));
        let ghost mut sent: Seq<u8> = Seq::empty();
        let mut from: usize = 0;
        proof {
            lemma_wrote_nothing(pre);
        }
        loop
            invariant_except_break
                from <= n,
                whole == Emit::plain(sent).followed_by(labels_emit(labels_from(bytes@, from as int))),
            invariant
                n == bytes@.len(),
                pre == *old(self),
                whole == name_emit(qname@),
                wrote(pre, *self, sent),
                sent.len() <= pre.room(),
            ensures
                whole == Emit::plain(sent + seq![0u8]),
            decreases n - from,
        {
            let end = label_end_from(bytes, from);
            let len = end - from;
            let ghost label = bytes@.subrange(from as int, end as int);
            let ghost tail = if end < n {
                labels_from(bytes@, end + 1)
            } else {
                Seq::empty()
            };
            proof {
                let labels = labels_from(bytes@, from as int);
                assert(labels.drop_first() =~= tail);
            }
            if len > MAX_LABEL_LEN {
                return Err(DnsError::LabelTooLong);
            }
            let ghost rest = labels_emit(tail);
            proof {
                assert(whole.bytes =~= (sent + label_wire(label)) + rest.bytes);
            }
            let ghost mid = *self;
            let head = self.write_u8(len as u8);
            proof {
                lemma_wrote_append(pre, mid, *self, sent, seq![len as u8]);
            }
            if head.is_err() {
                proof {
                    lemma_wrote_overflow(pre, *self, sent + seq![len as u8], label + rest.bytes);
                    assert((sent + seq![len as u8]) + (label + rest.bytes) =~= whole.bytes);
                }
                return head;
            }
            let ghost mid = *self;
            let body = self.write_bytes(slice_subrange(bytes, from, end));
            proof {
                lemma_wrote_append(pre, mid, *self, sent + seq![len as u8], label);
                assert((sent + seq![len as u8]) + label =~= sent + label_wire(label));
            }
            if body.is_err() {
                proof {
                    lemma_wrote_overflow(pre, *self, sent + label_wire(label), rest.bytes);
                }
                return body;
            }
            proof {
                sent = sent + label_wire(label);
            }
            if end == n {
                break ;
            }
            from = end + 1;
        }
        let ghost mid = *self;
        let last = self.write_u8(0);
        proof {
            lemma_wrote_append(pre, mid, *self, sent, seq![0u8]);
        }
        last
    }
}

/// Finds where the label that starts at `from` ends.
fn label_end_from(name: &[u8], from: usize) -> (end: usize)
    requires
        from <= name@.len(),
    ensures
        end == label_end(name@, from as int),
        from <= end <= name@.len(),
{
    let mut end = from;
    while end < name.len() && name[end] != DOT
        invariant
            from <= end <= name@.len(),
            label_end(name@, from as int) == label_end(name@, end as int),
        decreases name@.len() - end,
    {
        end += 1;
    }
    end
}

} // verus!
