//! Questions: a name and the type of record asked for.

use vstd::prelude::*;
use vstd::std_specs::convert::FromSpecImpl;
use vstd::string::StringExecFns;
use crate::buffer::{lemma_wrote_nothing, lemma_wrote_step, wrote, BytePacketBuffer};
use crate::error::DnsError;
use crate::emit::Emit;
use crate::name::{name_at, name_emit, name_text};
use crate::wire::{be16, u16_bytes};

verus! {

/// The class code of the Internet, the only class that is written.
pub const CLASS_IN: u16 = 1;

/// The type of record that a question asks for.
#[derive(Debug, Clone, Copy, PartialEq, Eq, Hash, Structural)]
pub enum QueryType {
    /// A type that this library does not interpret, with its code.
    UNKNOWN(u16),
    /// An IPv4 address, code 1.
    A,
}

impl QueryType {
    /// The type with the code `n`.
    pub open spec fn of_code(n: u16) -> QueryType {
        if n == 1 {
            QueryType::A
        } else {
            QueryType::UNKNOWN(n)
        }
    }

    /// The code of the type on the wire.
    pub open spec fn spec_code(self) -> u16 {
        match self {
            QueryType::A => 1,
            QueryType::UNKNOWN(n) => n,
        }
    }

    /// The code of the type on the wire.
    #[verifier::when_used_as_spec(spec_code)]
    pub fn code(self) -> (n: u16)
        ensures
            n == self.spec_code(),
    {
        match self {
            QueryType::A => 1,
            QueryType::UNKNOWN(n) => n,
        }
    }
}

impl From<u16> for QueryType {
    fn from(n: u16) -> (t: Self) {
        match n {
            1 => QueryType::A,
            _ => QueryType::UNKNOWN(n),
        }
    }
}

impl FromSpecImpl<u16> for QueryType {
    open spec fn obeys_from_spec() -> bool {
        true
    }

    open spec fn from_spec(n: u16) -> Self {
        QueryType::of_code(n)
    }
}

impl From<QueryType> for u16 {
    fn from(t: QueryType) -> (n: Self) {
        t.code()
    }
}

impl FromSpecImpl<QueryType> for u16 {
    open spec fn obeys_from_spec() -> bool {
        true
    }

    open spec fn from_spec(t: QueryType) -> Self {
        t.spec_code()
    }
}

/// A question of a message.
#[derive(Debug, Clone, PartialEq, Eq)]
pub struct DnsQuestion {
    pub name: String,
    pub qtype: QueryType,
}

/// A question as a value: the name as text.
pub struct QuestionView {
    pub name: Seq<char>,
    pub qtype: QueryType,
}

impl View for DnsQuestion {
    type V = QuestionView;

    open spec fn view(&self) -> QuestionView {
        QuestionView { name: self.name@, qtype: self.qtype }
    }
}

/// The question that starts at `pos`, and the position behind it: a name,
/// two bytes of type, two bytes of class that are passed over.
pub open spec fn question_at(bytes: Seq<u8>, pos: int) -> Result<(QuestionView, int), DnsError> {
    match name_at(bytes, pos, 0) {
        Ok((labels, next)) => if next + 4 <= bytes.len() {
            Ok(
                (
                    QuestionView {
                        name: name_text(labels),
                        qtype: QueryType::of_code(be16(bytes, next)),
                    },
                    next + 4,
                ),
            )
        } else {
            Err(DnsError::BufferOverrun)
        },
        Err(e) => Err(e),
    }
}

/// A question on the wire: the name, the code of the type, the class.
pub open spec fn question_emit(q: QuestionView) -> Emit {
    name_emit(q.name).followed_by(Emit::plain(u16_bytes(q.qtype.code()) + u16_bytes(CLASS_IN)))
}

impl DnsQuestion {
    /// A question for `name` and `qtype`.
    pub fn new(name: String, qtype: QueryType) -> (q: Self)
        ensures
            q.name == name,
            q.qtype == qtype,
    {
        DnsQuestion { name, qtype }
    }

    /// Reads the question under the cursor: its name is appended to the
    /// name of `self`, its type replaces the type of `self`, and the cursor
    /// moves behind it. Where the question cannot be read, nothing changes.
    pub fn read(&mut self, buf: &mut BytePacketBuffer) -> (r: Result<(), DnsError>)
        ensures
            old(buf).wf() ==> final(buf).wf(),
            final(buf).buf == old(buf).buf,
            match question_at(old(buf).buf@, old(buf).pos as int) {
                Ok((q, next)) => {
                    &&& r is Ok
                    &&& final(buf).pos == next
                    &&& final(self).name@ == old(self).name@ + q.name
                    &&& final(self).qtype == q.qtype
                },
                Err(e) => {
                    &&& r == Err::<(), DnsError>(e)
                    &&& final(buf).pos == old(buf).pos
                    &&& *final(self) == *old(self)
                },
            },
    {
        let (name, next) = buf.get_qname(buf.pos())?;
        let code = buf.get_u16(next)?;
        let _class = buf.get_u16(next + 2)?;
        buf.seek(next + 4)?;
        self.name.append(name.as_str());
        self.qtype = QueryType::from(code);
        Ok(())
    }

    /// Writes the question at the cursor: name, type, class.
    pub fn write(&self, buf: &mut BytePacketBuffer) -> (r: Result<(), DnsError>)
        ensures
            old(buf).wf() ==> final(buf).wf(),
            wrote(*old(buf), *final(buf), question_emit(self@).bytes),
            r == question_emit(self@).result(old(buf).room()),
    {
        let ghost pre = *buf;
        let ghost name = name_emit(self.name@);
        let ghost ty = u16_bytes(self.qtype.code());
        let ghost class = u16_bytes(CLASS_IN);
        let ghost none = Seq::<u8>::empty();
        let r = buf.write_qname(self.name.as_str());
        if r.is_err() {
            proof {
                if name.complete {
                    lemma_wrote_nothing(pre);
                    lemma_wrote_step(pre, pre, *buf, none, name.bytes, ty + class);
                }
            }
            return r;
        }
        let ghost mid = *buf;
        let r = buf.write_u16(self.qtype.code());
        proof {
            lemma_wrote_step(pre, mid, *buf, name.bytes, ty, class);
            assert(name.bytes + ty + class =~= name.bytes + (ty + class));
        }
        if r.is_err() {
            return r;
        }
        let ghost mid = *buf;
        let r = buf.write_u16(CLASS_IN);
        proof {
            lemma_wrote_step(pre, mid, *buf, name.bytes + ty, class, none);
        }
        r
    }
}

} // verus!
