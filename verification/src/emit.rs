//! What an encoder sets out to write, and how the attempt ends.

use vstd::prelude::*;
use crate::buffer::{lemma_wrote_append, lemma_wrote_overflow, wrote, BytePacketBuffer};
use crate::error::DnsError;

verus! {

/// What an encoder sets out to write: the bytes in order, and whether they
/// are the whole encoding. They are not where a label was too long; the
/// bytes then stop before that label.
pub struct Emit {
    pub bytes: Seq<u8>,
    pub complete: bool,
}

impl Emit {
    /// The bytes `data`, and nothing wrong with them.
    pub open spec fn plain(data: Seq<u8>) -> Emit {
        Emit { bytes: data, complete: true }
    }

    /// First `self`, then `next`, unless `self` broke off.
    pub open spec fn followed_by(self, next: Emit) -> Emit {
        if self.complete {
            Emit { bytes: self.bytes + next.bytes, complete: next.complete }
        } else {
            self
        }
    }

    /// How the attempt ends in a buffer with `room` bytes left: the buffer
    /// runs out first, or a label is found too long, or all is written.
    pub open spec fn result(self, room: int) -> Result<(), DnsError> {
        if self.bytes.len() > room {
            Err(DnsError::BufferOverrun)
        } else if !self.complete {
            Err(DnsError::LabelTooLong)
        } else {
            Ok(())
        }
    }
}

/// One more piece of a longer attempt: after the bytes `sent`, `piece` was
/// attempted, and `rest` is what would follow it. If the piece failed, the
/// whole attempt has ended as the piece did; if not, the piece counts as
/// sent.
pub proof fn lemma_emit_step(
    pre: BytePacketBuffer,
    mid: BytePacketBuffer,
    post: BytePacketBuffer,
    sent: Seq<u8>,
    piece: Emit,
    rest: Emit,
)
    requires
        wrote(pre, mid, sent),
        sent.len() <= pre.room(),
        wrote(mid, post, piece.bytes),
    ensures
        ({
            let whole = Emit::plain(sent).followed_by(piece.followed_by(rest));
            let ended = piece.result(mid.room());
            &&& ended is Err ==> wrote(pre, post, whole.bytes) && whole.result(pre.room())
                == ended
            &&& ended is Ok ==> {
                &&& wrote(pre, post, sent + piece.bytes)
                &&& (sent + piece.bytes).len() <= pre.room()
                &&& whole == Emit::plain(sent + piece.bytes).followed_by(rest)
            }
        }),
{
    lemma_wrote_append(pre, mid, post, sent, piece.bytes);
    if piece.complete {
        assert(sent + (piece.bytes + rest.bytes) =~= (sent + piece.bytes) + rest.bytes);
        if piece.bytes.len() > mid.room() {
            lemma_wrote_overflow(pre, post, sent + piece.bytes, rest.bytes);
        }
    }
}

/// The last piece of an attempt: nothing follows it.
pub proof fn lemma_emit_last(
    pre: BytePacketBuffer,
    mid: BytePacketBuffer,
    post: BytePacketBuffer,
    sent: Seq<u8>,
    piece: Emit,
)
    requires
        wrote(pre, mid, sent),
        sent.len() <= pre.room(),
        wrote(mid, post, piece.bytes),
    ensures
        ({
            let whole = Emit::plain(sent).followed_by(piece);
            &&& wrote(pre, post, whole.bytes)
            &&& whole.result(pre.room()) == piece.result(mid.room())
        }),
{
    lemma_wrote_append(pre, mid, post, sent, piece.bytes);
}

} // verus!
