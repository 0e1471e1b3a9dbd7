//! Whole messages: a header, the questions, and three sections of records.

use vstd::prelude::*;
use crate::buffer::{lemma_wrote_nothing, wrote, BytePacketBuffer};
use crate::emit::{lemma_emit_last, lemma_emit_step, Emit};
use crate::error::DnsError;
use crate::header::{header_at, header_wire, DnsHeader, HEADER_LEN};
use crate::question::{question_at, question_emit, DnsQuestion, QueryType, QuestionView};
use crate::record::{emit_count, record_at, record_emit, DnsRecord, RecordView};

verus! {

/// A message.
#[derive(Debug, Clone, PartialEq, Eq)]
pub struct DnsPacket {
    pub header: DnsHeader,
    pub questions: Vec<DnsQuestion>,
    pub answers: Vec<DnsRecord>,
    pub authorities: Vec<DnsRecord>,
    pub resources: Vec<DnsRecord>,
}

/// A message as a value.
pub struct PacketView {
    pub header: DnsHeader,
    pub questions: Seq<QuestionView>,
    pub answers: Seq<RecordView>,
    pub authorities: Seq<RecordView>,
    pub resources: Seq<RecordView>,
}

/// The questions as values.
pub open spec fn question_views(questions: Seq<DnsQuestion>) -> Seq<QuestionView> {
    questions.map_values(|q: DnsQuestion| q@)
}

/// The records as values.
pub open spec fn record_views(records: Seq<DnsRecord>) -> Seq<RecordView> {
    records.map_values(|r: DnsRecord| r@)
}

impl View for DnsPacket {
    type V = PacketView;

    open spec fn view(&self) -> PacketView {
        PacketView {
            header: self.header,
            questions: question_views(self.questions@),
            answers: record_views(self.answers@),
            authorities: record_views(self.authorities@),
            resources: record_views(self.resources@),
        }
    }
}

/// The `count` questions that start at `pos`, one behind the other, and the
/// position behind the last.
pub open spec fn questions_at(bytes: Seq<u8>, pos: int, count: nat) -> Result<
    (Seq<QuestionView>, int),
    DnsError,
>
    decreases count,
{
    if count == 0 {
        Ok((Seq::empty(), pos))
    } else {
        match question_at(bytes, pos) {
            Ok((q, next)) => match questions_at(bytes, next, (count - 1) as nat) {
                Ok((rest, end)) => Ok((seq![q] + rest, end)),
                Err(e) => Err(e),
            },
            Err(e) => Err(e),
        }
    }
}

/// The `count` records that start at `pos`, one behind the other, and the
/// position behind the last.
pub open spec fn records_at(bytes: Seq<u8>, pos: int, count: nat) -> Result<
    (Seq<RecordView>, int),
    DnsError,
>
    decreases count,
{
    if count == 0 {
        Ok((Seq::empty(), pos))
    } else {
        match record_at(bytes, pos) {
            Ok((r, next)) => match records_at(bytes, next, (count - 1) as nat) {
                Ok((rest, end)) => Ok((seq![r] + rest, end)),
                Err(e) => Err(e),
            },
            Err(e) => Err(e),
        }
    }
}

/// The message that starts at `pos`, and the position behind it: the
/// header, then as many questions, answers, authority records and additional
/// records as the header counts, in that order.
pub open spec fn packet_at(bytes: Seq<u8>, pos: int) -> Result<(PacketView, int), DnsError> {
    if pos + HEADER_LEN > bytes.len() {
        Err(DnsError::BufferOverrun)
    } else {
        let header = header_at(bytes, pos);
        match questions_at(bytes, pos + HEADER_LEN, header.questions as nat) {
            Ok((questions, q_end)) => match records_at(bytes, q_end, header.answers as nat) {
                Ok((answers, an_end)) => match records_at(
                    bytes,
                    an_end,
                    header.authoritative_entries as nat,
                ) {
                    Ok((authorities, ns_end)) => match records_at(
                        bytes,
                        ns_end,
                        header.resource_entries as nat,
                    ) {
                        Ok((resources, ar_end)) => Ok(
                            (PacketView { header, questions, answers, authorities, resources }, ar_end),
                        ),
                        Err(e) => Err(e),
                    },
                    Err(e) => Err(e),
                },
                Err(e) => Err(e),
            },
            Err(e) => Err(e),
        }
    }
}

/// The questions on the wire, one after the other.
pub open spec fn questions_emit(questions: Seq<QuestionView>) -> Emit
    decreases questions.len(),
{
    if questions.len() == 0 {
        Emit::plain(Seq::empty())
    } else {
        question_emit(questions[0]).followed_by(questions_emit(questions.drop_first()))
    }
}

/// The records on the wire, one after the other.
pub open spec fn records_emit(records: Seq<RecordView>) -> Emit
    decreases records.len(),
{
    if records.len() == 0 {
        Emit::plain(Seq::empty())
    } else {
        record_emit(records[0]).followed_by(records_emit(records.drop_first()))
    }
}

/// The message with the four counts of its header set to the lengths of its
/// four sections, each cut to 16 bits.
pub open spec fn with_counts(p: PacketView) -> PacketView {
    PacketView {
        header: DnsHeader {
            questions: p.questions.len() as u16,
            answers: p.answers.len() as u16,
            authoritative_entries: p.authorities.len() as u16,
            resource_entries: p.resources.len() as u16,
            ..p.header
        },
        ..p
    }
}

/// The message on the wire: header, questions, answers, authority records,
/// additional records.
pub open spec fn packet_emit(p: PacketView) -> Emit {
    Emit::plain(header_wire(p.header)).followed_by(
        questions_emit(p.questions).followed_by(
            records_emit(p.answers).followed_by(
                records_emit(p.authorities).followed_by(records_emit(p.resources)),
            ),
        ),
    )
}

/// Reads `count` questions under the cursor. Where one of them cannot be
/// read, the cursor goes back to where it was.
fn read_questions(buf: &mut BytePacketBuffer, count: u16) -> (r: Result<
    Vec<DnsQuestion>,
    DnsError,
>)
    ensures
        old(buf).wf() ==> final(buf).wf(),
        final(buf).buf == old(buf).buf,
        match questions_at(old(buf).buf@, old(buf).pos as int, count as nat) {
            Ok((questions, next)) => {
                &&& r is Ok
                &&& question_views(r->Ok_0@) == questions
                &&& final(buf).pos == next
            },
            Err(e) => r is Err && r->Err_0 == e && final(buf).pos == old(buf).pos,
        },
{
    let start = buf.pos();
    let ghost bytes = buf.buf@;
    let mut questions: Vec<DnsQuestion> = Vec::new();
    let mut i: u16 = 0;
    while i < count
        invariant
            i <= count,
            old(buf).wf() ==> buf.wf(),
            buf.buf == old(buf).buf,
            bytes == old(buf).buf@,
            start == old(buf).pos,
            questions_at(bytes, start as int, count as nat) == (match questions_at(
                bytes,
                buf.pos as int,
                (count - i) as nat,
            ) {
                Ok((rest, end)) => Ok((question_views(questions@) + rest, end)),
                Err(e) => Err(e),
            }),
        decreases count - i,
    {
        let mut question = DnsQuestion::new(String::new(), QueryType::UNKNOWN(0));
        match question.read(buf) {
            Ok(()) => {
                proof {
                    let before = question_views(questions@);
                    let after = question_views(questions@.push(question));
                    assert(forall|rest: Seq<QuestionView>|
                        before + (seq![question@] + rest) == after + rest);
                }
                questions.push(question);
            },
            Err(e) => {
                buf.pos = start;
                return Err(e);
            },
        }
        i += 1;
    }
    assert(question_views(questions@) + Seq::<QuestionView>::empty() =~= question_views(
        questions@,
    ));
    Ok(questions)
}

/// Reads `count` records under the cursor. Where one of them cannot be
/// read, the cursor goes back to where it was.
fn read_records(buf: &mut BytePacketBuffer, count: u16) -> (r: Result<Vec<DnsRecord>, DnsError>)
    ensures
        old(buf).wf() ==> final(buf).wf(),
        final(buf).buf == old(buf).buf,
        match records_at(old(buf).buf@, old(buf).pos as int, count as nat) {
            Ok((records, next)) => r is Ok && record_views(r->Ok_0@) == records && final(buf).pos
                == next,
            Err(e) => r is Err && r->Err_0 == e && final(buf).pos == old(buf).pos,
        },
{
    let start = buf.pos();
    let ghost bytes = buf.buf@;
    let mut records: Vec<DnsRecord> = Vec::new();
    let mut i: u16 = 0;
    while i < count
        invariant
            i <= count,
            old(buf).wf() ==> buf.wf(),
            buf.buf == old(buf).buf,
            bytes == old(buf).buf@,
            start == old(buf).pos,
            records_at(bytes, start as int, count as nat) == (match records_at(
                bytes,
                buf.pos as int,
                (count - i) as nat,
            ) {
                Ok((rest, end)) => Ok((record_views(records@) + rest, end)),
                Err(e) => Err(e),
            }),
        decreases count - i,
    {
        match DnsRecord::read(buf) {
            Ok(rec) => {
                proof {
                    let before = record_views(records@);
                    let after = record_views(records@.push(rec));
                    assert(forall|rest: Seq<RecordView>|
                        before + (seq![rec@] + rest) == after + rest);
                }
                records.push(rec);
            },
            Err(e) => {
                buf.pos = start;
                return Err(e);
            },
        }
        i += 1;
    }
    Ok(records)
}

/// Writes the questions at the cursor, one after the other.
fn write_questions(questions: &Vec<DnsQuestion>, buffer: &mut BytePacketBuffer) -> (r: Result<
    (),
    DnsError,
>)
    ensures
        wrote(*old(buffer), *final(buffer), questions_emit(question_views(questions@)).bytes),
        r == questions_emit(question_views(questions@)).result(old(buffer).room()),
{
    let ghost pre = *buffer;
    let ghost views = question_views(questions@);
    let ghost whole = questions_emit(views);
    let ghost mut sent = Seq::<u8>::empty();
    let mut i: usize = 0;
    proof {
        lemma_wrote_nothing(pre);
        assert(views.skip(0) =~= views);
    }
    while i < questions.len()
        invariant
            i <= questions@.len(),
            pre == *old(buffer),
            views == question_views(questions@),
            whole == questions_emit(views),
            wrote(pre, *buffer, sent),
            sent.len() <= pre.room(),
            whole == Emit::plain(sent).followed_by(questions_emit(views.skip(i as int))),
        decreases questions@.len() - i,
    {
        let ghost mid = *buffer;
        let ghost piece = question_emit(views[i as int]);
        let ghost rest = questions_emit(views.skip(i + 1));
        proof {
            assert(views.skip(i as int).drop_first() =~= views.skip(i + 1));
        }
        let r = questions[i].write(buffer);
        proof {
            lemma_emit_step(pre, mid, *buffer, sent, piece, rest);
        }
        if r.is_err() {
            return r;
        }
        proof {
            sent = sent + piece.bytes;
        }
        i += 1;
    }
    Ok(())
}

/// Writes the records at the cursor, one after the other.
fn write_records(records: &Vec<DnsRecord>, buffer: &mut BytePacketBuffer) -> (r: Result<
    (),
    DnsError,
>)
    ensures
        wrote(*old(buffer), *final(buffer), records_emit(record_views(records@)).bytes),
        r == records_emit(record_views(records@)).result(old(buffer).room()),
{
    let ghost pre = *buffer;
    let ghost views = record_views(records@);
    let ghost whole = records_emit(views);
    let ghost mut sent = Seq::<u8>::empty();
    let mut i: usize = 0;
    proof {
        lemma_wrote_nothing(pre);
        assert(views.skip(0) =~= views);
    }
    while i < records.len()
        invariant
            i <= records@.len(),
            pre == *old(buffer),
            views == record_views(records@),
            whole == records_emit(views),
            wrote(pre, *buffer, sent),
            sent.len() <= pre.room(),
            whole == Emit::plain(sent).followed_by(records_emit(views.skip(i as int))),
        decreases records@.len() - i,
    {
        let ghost mid = *buffer;
        let ghost piece = record_emit(views[i as int]);
        let ghost rest = records_emit(views.skip(i + 1));
        proof {
            assert(views.skip(i as int).drop_first() =~= views.skip(i + 1));
        }
        let r = records[i].write(buffer);
        proof {
            lemma_emit_step(pre, mid, *buffer, sent, piece, rest);
        }
        if r.is_err() {
            return Err(r.unwrap_err());
        }
        proof {
            sent = sent + piece.bytes;
        }
        i += 1;
    }
    Ok(())
}

impl DnsPacket {
    /// A message with a fresh header and no entries.
    pub fn new() -> (p: Self)
        ensures
            p.header == DnsHeader::new(),
            p.questions@.len() == 0,
            p.answers@.len() == 0,
            p.authorities@.len() == 0,
            p.resources@.len() == 0,
    {
        DnsPacket {
            header: DnsHeader::new(),
            questions: Vec::new(),
            answers: Vec::new(),
            authorities: Vec::new(),
            resources: Vec::new(),
        }
    }

    /// Decodes the message under the cursor and moves the cursor behind it.
    /// Where any part of it cannot be read, no message is returned and the
    /// cursor stays where it was.
    pub fn from_buffer(buffer: &mut BytePacketBuffer) -> (r: Result<Self, DnsError>)
        ensures
            old(buffer).wf() ==> final(buffer).wf(),
            final(buffer).buf == old(buffer).buf,
            match packet_at(old(buffer).buf@, old(buffer).pos as int) {
                Ok((packet, next)) => r is Ok && r->Ok_0@ == packet && final(buffer).pos == next,
                Err(e) => r is Err && r->Err_0 == e && final(buffer).pos == old(buffer).pos,
            },
    {
        let start = buffer.pos();
        let mut res = DnsPacket::new();
        res.header.read(buffer)?;

        match read_questions(buffer, res.header.questions) {
            Ok(questions) => {
                res.questions = questions;
            },
            Err(e) => {
                buffer.pos = start;
                return Err(e);
            },
        }
        match read_records(buffer, res.header.answers) {
            Ok(records) => {
                res.answers = records;
            },
            Err(e) => {
                buffer.pos = start;
                return Err(e);
            },
        }
        match read_records(buffer, res.header.authoritative_entries) {
            Ok(records) => {
                res.authorities = records;
            },
            Err(e) => {
                buffer.pos = start;
                return Err(e);
            },
        }
        match read_records(buffer, res.header.resource_entries) {
            Ok(records) => {
                res.resources = records;
            },
            Err(e) => {
                buffer.pos = start;
                return Err(e);
            },
        }
        Ok(res)
    }

    /// Encodes the message at the cursor and returns the number of bytes
    /// written. First the four counts of the header are set to the lengths
    /// of the four sections; then the header, the questions, the answers,
    /// the authority records and the additional records are written, in
    /// that order.
    pub fn write(&mut self, buffer: &mut BytePacketBuffer) -> (r: Result<usize, DnsError>)
        ensures
            old(buffer).wf() ==> final(buffer).wf(),
            final(self)@ == with_counts(old(self)@),
            wrote(*old(buffer), *final(buffer), packet_emit(final(self)@).bytes),
            r == emit_count(packet_emit(final(self)@), old(buffer).room()),
    {
        let start_pos = buffer.pos();
        self.header.questions = #[verifier::truncate] (self.questions.len() as u16);
        self.header.answers = #[verifier::truncate] (self.answers.len() as u16);
        self.header.authoritative_entries = #[verifier::truncate] (self.authorities.len() as u16);
        self.header.resource_entries = #[verifier::truncate] (self.resources.len() as u16);

        let ghost pre = *buffer;
        let ghost head = Emit::plain(header_wire(self.header));
        let ghost qd = questions_emit(self@.questions);
        let ghost an = records_emit(self@.answers);
        let ghost ns = records_emit(self@.authorities);
        let ghost ar = records_emit(self@.resources);
        let ghost none = Seq::<u8>::empty();
        proof {
            lemma_wrote_nothing(pre);
            let whole = packet_emit(self@);
        }

        let r = self.header.write(buffer);
        proof {
            lemma_emit_step(pre, pre, *buffer, none, head, qd.followed_by(an.followed_by(ns.followed_by(ar))));
        }
        if r.is_err() {
            return Err(r.unwrap_err());
        }
        let ghost sent = head.bytes;
        let ghost mid = *buffer;
        let r = write_questions(&self.questions, buffer);
        proof {
            lemma_emit_step(pre, mid, *buffer, sent, qd, an.followed_by(ns.followed_by(ar)));
        }
        if r.is_err() {
            return Err(r.unwrap_err());
        }
        let ghost sent = sent + qd.bytes;
        let ghost mid = *buffer;
        let r = write_records(&self.answers, buffer);
        proof {
            lemma_emit_step(pre, mid, *buffer, sent, an, ns.followed_by(ar));
        }
        if r.is_err() {
            return Err(r.unwrap_err());
        }
        let ghost sent = sent + an.bytes;
        let ghost mid = *buffer;
        let r = write_records(&self.authorities, buffer);
        proof {
            lemma_emit_step(pre, mid, *buffer, sent, ns, ar);
        }
        if r.is_err() {
            return Err(r.unwrap_err());
        }
        let ghost sent = sent + ns.bytes;
        let ghost mid = *buffer;
        let r = write_records(&self.resources, buffer);
        proof {
            lemma_emit_last(pre, mid, *buffer, sent, ar);
        }
        if r.is_err() {
            return Err(r.unwrap_err());
        }
        Ok(buffer.pos() - start_pos)
    }
}

} // verus!
