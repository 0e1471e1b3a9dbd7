//! How decoding and encoding relate.

use vstd::prelude::*;
use vstd::utf8::{encode_utf8, is_ascii_chars, is_ascii_chars_encode_utf8};
use crate::buffer::{wrote, BytePacketBuffer};
use crate::error::DnsError;
use crate::header::{flag, flags_high, flags_low, header_at, header_wire, DnsHeader};
use crate::packet::{
    packet_at, packet_emit, questions_at, questions_emit, records_at, records_emit, with_counts,
    PacketView,
};
use crate::question::{question_at, question_emit, QueryType, QuestionView, CLASS_IN};
use crate::record::{address_wire, record_at, record_emit, RecordView};
use crate::name::{
    is_pointer, label_end, label_wire, labels_emit, labels_from, lemma_label_end_bounds, name_at,
    name_emit, name_text, pointer_target, split_labels, MAX_JUMPS, MAX_LABEL_LEN,
};
use crate::text::{ascii_text, is_ascii_bytes, label_text, lemma_ascii_utf8_text, lower_text};
use crate::wire::{be16, be32, u16_bytes, u32_bytes};

verus! {

/// `bytes` holds `data` from `pos` on.
pub open spec fn holds(bytes: Seq<u8>, pos: int, data: Seq<u8>) -> bool {
    &&& 0 <= pos
    &&& pos + data.len() <= bytes.len()
    &&& forall|i: int| 0 <= i < data.len() ==> bytes[pos + i] == #[trigger] data[i]
}

/// Every label has at least one byte and at most 63.
pub open spec fn plain_labels(labels: Seq<Seq<u8>>) -> bool {
    forall|i: int| 0 <= i < labels.len() ==> 1 <= #[trigger] labels[i].len() <= MAX_LABEL_LEN
}

/// Where `bytes` holds `first + second`, it holds `first`, and `second`
/// behind it.
pub proof fn lemma_holds_split(bytes: Seq<u8>, pos: int, first: Seq<u8>, second: Seq<u8>)
    requires
        holds(bytes, pos, first + second),
    ensures
        holds(bytes, pos, first),
        holds(bytes, pos + first.len(), second),
{
    let both = first + second;
    assert forall|i: int| 0 <= i < first.len() implies bytes[pos + i] == #[trigger] first[i] by {
        assert(both[i] == first[i]);
    }
    assert forall|i: int| 0 <= i < second.len() implies bytes[pos + first.len() + i]
        == #[trigger] second[i] by {
        assert(both[first.len() + i] == second[i]);
    }
}

/// Two bytes that were written for a 16-bit integer read back as it.
pub proof fn lemma_u16_reads_back(bytes: Seq<u8>, pos: int, v: u16)
    requires
        holds(bytes, pos, u16_bytes(v)),
    ensures
        be16(bytes, pos) == v,
{
    assert(bytes[pos + 0] == u16_bytes(v)[0]);
    assert(bytes[pos + 1] == u16_bytes(v)[1]);
}

/// Four bytes that were written for a 32-bit integer read back as it.
pub proof fn lemma_u32_reads_back(bytes: Seq<u8>, pos: int, v: u32)
    requires
        holds(bytes, pos, u32_bytes(v)),
    ensures
        be32(bytes, pos) == v,
{
    assert(bytes[pos + 0] == u32_bytes(v)[0]);
    assert(bytes[pos + 1] == u32_bytes(v)[1]);
    assert(bytes[pos + 2] == u32_bytes(v)[2]);
    assert(bytes[pos + 3] == u32_bytes(v)[3]);
}

/// A name that stands in full, label by label with a closing zero byte,
/// reads back as its labels, however many pointers led to it; the reader
/// goes on behind the zero byte.
pub proof fn lemma_labels_read_back(bytes: Seq<u8>, pos: int, labels: Seq<Seq<u8>>, hops: nat)
    requires
        hops <= MAX_JUMPS,
        plain_labels(labels),
        holds(bytes, pos, labels_emit(labels).bytes),
    ensures
        labels_emit(labels).complete,
        name_at(bytes, pos, hops) == Ok::<(Seq<Seq<u8>>, int), DnsError>(
            (labels, pos + labels_emit(labels).bytes.len()),
        ),
    decreases labels.len(),
{
    let wire = labels_emit(labels).bytes;
    if labels.len() == 0 {
        assert(bytes[pos + 0] == wire[0]);
        assert(!is_pointer(0u8)) by (bit_vector);
        assert(labels =~= Seq::empty());
    } else {
        let label = labels[0];
        let rest = labels.drop_first();
        let n = label.len() as u8;
        lemma_holds_split(bytes, pos, label_wire(label), labels_emit(rest).bytes);
        lemma_holds_split(bytes, pos, seq![n], label);
        assert(bytes[pos + 0] == seq![n][0]);
        assert(!is_pointer(n)) by (bit_vector)
            requires
                n <= 63,
        ;
        let end = pos + 1 + n;
        assert(bytes.subrange(pos + 1, end) =~= label);
        lemma_labels_read_back(bytes, end, rest, hops);
        assert(seq![label] + rest =~= labels);
    }
}

/// The text of a name is the text of its first label, and behind a full
/// stop the text of the others, if there are any.
pub proof fn lemma_name_text_by_first(label: Seq<u8>, rest: Seq<Seq<u8>>)
    ensures
        name_text(seq![label] + rest) == if rest.len() == 0 {
            label_text(label)
        } else {
            label_text(label) + seq!['.'] + name_text(rest)
        },
    decreases rest.len(),
{
    let all = seq![label] + rest;
    if rest.len() > 0 {
        assert(all.drop_last() =~= seq![label] + rest.drop_last());
        lemma_name_text_by_first(label, rest.drop_last());
    }
}

/// Splitting ASCII bytes at the full stops, reading each label as text and
/// joining the texts by full stops gives the bytes as lower-case text.
pub proof fn lemma_text_of_ascii_from(name: Seq<u8>, from: int)
    requires
        is_ascii_bytes(name),
        0 <= from <= name.len(),
    ensures
        labels_from(name, from).len() >= 1,
        name_text(labels_from(name, from)) == lower_text(
            ascii_text(name.subrange(from, name.len() as int)),
        ),
    decreases name.len() - from,
{
    lemma_label_end_bounds(name, from);
    let end = label_end(name, from);
    let whole = name.subrange(from, name.len() as int);
    lemma_ascii_utf8_text(whole);
    if end < name.len() {
        let label = name.subrange(from, end);
        let rest = labels_from(name, end + 1);
        let tail = name.subrange(end + 1, name.len() as int);
        lemma_text_of_ascii_from(name, end + 1);
        lemma_name_text_by_first(label, rest);
        lemma_ascii_utf8_text(label);
        lemma_ascii_utf8_text(tail);
        let joined = label_text(label) + seq!['.'] + lower_text(ascii_text(tail));
        assert(joined =~= lower_text(ascii_text(whole)));
    }
}

/// A name in ASCII that is written out and read back comes out in lower
/// case, and otherwise as it was.
pub proof fn lemma_name_text_of_ascii(name: Seq<char>)
    requires
        is_ascii_chars(name),
    ensures
        name_text(split_labels(encode_utf8(name))) == lower_text(name),
{
    let bytes = encode_utf8(name);
    is_ascii_chars_encode_utf8(name);
    assert(ascii_text(bytes) =~= name);
    lemma_text_of_ascii_from(bytes, 0);
}

/// A header with an opcode of at most four bits reads back as it was
/// written.
pub proof fn lemma_header_reads_back(bytes: Seq<u8>, pos: int, h: DnsHeader)
    requires
        h.opcode < 16,
        holds(bytes, pos, header_wire(h)),
    ensures
        header_at(bytes, pos) == h,
{
    let w = header_wire(h);
    assert(w[0] == u16_bytes(h.id)[0] && w[1] == u16_bytes(h.id)[1]);
    assert(w[2] == flags_high(h) && w[3] == flags_low(h));
    assert(w[4] == u16_bytes(h.questions)[0] && w[5] == u16_bytes(h.questions)[1]);
    assert(w[6] == u16_bytes(h.answers)[0] && w[7] == u16_bytes(h.answers)[1]);
    assert(w[8] == u16_bytes(h.authoritative_entries)[0] && w[9] == u16_bytes(
        h.authoritative_entries,
    )[1]);
    assert(w[10] == u16_bytes(h.resource_entries)[0] && w[11] == u16_bytes(h.resource_entries)[1]);

    let a = flags_high(h);
    let rd = flag(h.recursion_desired, 0x01);
    let tc = flag(h.truncated_message, 0x02);
    let aa = flag(h.authoritative_answer, 0x04);
    let qr = flag(h.response, 0x80);
    let op = h.opcode;
    assert({
        &&& (a & 0x01 != 0) == (rd == 0x01)
        &&& (a & 0x02 != 0) == (tc == 0x02)
        &&& (a & 0x04 != 0) == (aa == 0x04)
        &&& (a & 0x80 != 0) == (qr == 0x80)
        &&& (a >> 3) & 0x0F == op
    }) by (bit_vector)
        requires
            a == rd | tc | aa | (op << 3) | qr,
            rd == 0 || rd == 0x01,
            tc == 0 || tc == 0x02,
            aa == 0 || aa == 0x04,
            qr == 0 || qr == 0x80,
            op < 16,
    ;
    let b = flags_low(h);
    let rc = h.rescode.code();
    let cd = flag(h.checking_disabled, 0x10);
    let ad = flag(h.authed_data, 0x20);
    let z = flag(h.z, 0x40);
    let ra = flag(h.recursion_available, 0x80);
    assert({
        &&& b & 0x0F == rc
        &&& (b & 0x10 != 0) == (cd == 0x10)
        &&& (b & 0x20 != 0) == (ad == 0x20)
        &&& (b & 0x40 != 0) == (z == 0x40)
        &&& (b & 0x80 != 0) == (ra == 0x80)
    }) by (bit_vector)
        requires
            b == rc | cd | ad | z | ra,
            rc <= 5,
            cd == 0 || cd == 0x10,
            ad == 0 || ad == 0x20,
            z == 0 || z == 0x40,
            ra == 0 || ra == 0x80,
    ;
}

/// No label of the name is empty: the name is not empty, and it neither
/// starts nor ends with a full stop, nor holds two in a row.
pub open spec fn no_empty_label(name: Seq<char>) -> bool {
    forall|i: int|
        0 <= i < split_labels(encode_utf8(name)).len() ==> #[trigger] split_labels(
            encode_utf8(name),
        )[i].len() >= 1
}

/// Labels that were all written are at most 63 bytes long.
pub proof fn lemma_complete_labels_are_short(labels: Seq<Seq<u8>>)
    requires
        labels_emit(labels).complete,
    ensures
        forall|i: int| 0 <= i < labels.len() ==> #[trigger] labels[i].len() <= MAX_LABEL_LEN,
    decreases labels.len(),
{
    if labels.len() > 0 {
        let rest = labels.drop_first();
        lemma_complete_labels_are_short(rest);
        assert forall|i: int| 0 <= i < labels.len() implies #[trigger] labels[i].len()
            <= MAX_LABEL_LEN by {
            if i > 0 {
                assert(labels[i] == rest[i - 1]);
            }
        }
    }
}

/// An ASCII name without an empty label reads back in lower case, and the
/// reader goes on behind its closing zero byte.
pub proof fn lemma_name_reads_back(bytes: Seq<u8>, pos: int, name: Seq<char>)
    requires
        is_ascii_chars(name),
        no_empty_label(name),
        name_emit(name).complete,
        holds(bytes, pos, name_emit(name).bytes),
    ensures
        match name_at(bytes, pos, 0) {
            Ok((labels, next)) => name_text(labels) == lower_text(name) && next == pos + name_emit(
                name,
            ).bytes.len(),
            Err(_) => false,
        },
{
    let labels = split_labels(encode_utf8(name));
    lemma_complete_labels_are_short(labels);
    lemma_labels_read_back(bytes, pos, labels, 0);
    lemma_name_text_of_ascii(name);
}

/// The labels on the wire take at least the closing byte.
pub proof fn lemma_labels_emit_len(labels: Seq<Seq<u8>>)
    requires
        labels_emit(labels).complete,
    ensures
        labels_emit(labels).bytes.len() >= 1,
    decreases labels.len(),
{
    if labels.len() > 0 {
        lemma_labels_emit_len(labels.drop_first());
    }
}

/// What of a question comes back as it went out: an ASCII name without an
/// empty label, and a type that is not the address type under the name of an
/// unknown one.
pub open spec fn question_round_trips(q: QuestionView) -> bool {
    &&& is_ascii_chars(q.name)
    &&& no_empty_label(q.name)
    &&& q.qtype != QueryType::UNKNOWN(1)
}

/// The question with its name in lower case.
pub open spec fn lower_question(q: QuestionView) -> QuestionView {
    QuestionView { name: lower_text(q.name), qtype: q.qtype }
}

/// A question reads back as it was written, its name in lower case.
pub proof fn lemma_question_reads_back(bytes: Seq<u8>, pos: int, q: QuestionView)
    requires
        question_round_trips(q),
        question_emit(q).complete,
        holds(bytes, pos, question_emit(q).bytes),
    ensures
        question_at(bytes, pos) == Ok::<(QuestionView, int), DnsError>(
            (lower_question(q), pos + question_emit(q).bytes.len()),
        ),
{
    let name = name_emit(q.name);
    let ty = u16_bytes(q.qtype.code());
    let class = u16_bytes(CLASS_IN);
    lemma_holds_split(bytes, pos, name.bytes, ty + class);
    lemma_holds_split(bytes, pos + name.bytes.len(), ty, class);
    lemma_name_reads_back(bytes, pos, q.name);
    lemma_u16_reads_back(bytes, pos + name.bytes.len(), q.qtype.code());
}

/// What of a record comes back as it went out: an address record with an
/// ASCII name without an empty label.
pub open spec fn record_round_trips(r: RecordView) -> bool {
    match r {
        RecordView::A { domain, .. } => is_ascii_chars(domain) && no_empty_label(domain),
        RecordView::UNKNOWN { .. } => false,
    }
}

/// The record with its name in lower case.
pub open spec fn lower_record(r: RecordView) -> RecordView {
    match r {
        RecordView::A { domain, addr, ttl } => RecordView::A {
            domain: lower_text(domain),
            addr,
            ttl,
        },
        RecordView::UNKNOWN { domain, qtype, data_len, ttl } => RecordView::UNKNOWN {
            domain: lower_text(domain),
            qtype,
            data_len,
            ttl,
        },
    }
}

/// An address record reads back as it was written, its name in lower case.
pub proof fn lemma_record_reads_back(bytes: Seq<u8>, pos: int, r: RecordView)
    requires
        record_round_trips(r),
        record_emit(r).complete,
        holds(bytes, pos, record_emit(r).bytes),
    ensures
        record_at(bytes, pos) == Ok::<(RecordView, int), DnsError>(
            (lower_record(r), pos + record_emit(r).bytes.len()),
        ),
{
    match r {
        RecordView::A { domain, addr, ttl } => {
            let name = name_emit(domain);
            let fixed = address_wire(addr, ttl);
            let ty = u16_bytes(1);
            let class = u16_bytes(CLASS_IN);
            let life = u32_bytes(ttl);
            let len = u16_bytes(4);
            let octets = seq![addr.0, addr.1, addr.2, addr.3];
            lemma_holds_split(bytes, pos, name.bytes, fixed);
            let next = pos + name.bytes.len();
            assert(fixed =~= ty + (class + (life + (len + octets))));
            lemma_holds_split(bytes, next, ty, class + (life + (len + octets)));
            lemma_holds_split(bytes, next + 2, class, life + (len + octets));
            lemma_holds_split(bytes, next + 4, life, len + octets);
            lemma_holds_split(bytes, next + 8, len, octets);
            lemma_name_reads_back(bytes, pos, domain);
            lemma_u16_reads_back(bytes, next, 1);
            lemma_u32_reads_back(bytes, next + 4, ttl);
        },
        RecordView::UNKNOWN { .. } => {},
    }
}

/// The questions with their names in lower case.
pub open spec fn lower_questions(questions: Seq<QuestionView>) -> Seq<QuestionView> {
    questions.map_values(|q: QuestionView| lower_question(q))
}

/// The records with their names in lower case.
pub open spec fn lower_records(records: Seq<RecordView>) -> Seq<RecordView> {
    records.map_values(|r: RecordView| lower_record(r))
}

/// Questions read back as they were written, one after the other.
pub proof fn lemma_questions_read_back(bytes: Seq<u8>, pos: int, questions: Seq<QuestionView>)
    requires
        forall|i: int| 0 <= i < questions.len() ==> question_round_trips(#[trigger] questions[i]),
        questions_emit(questions).complete,
        holds(bytes, pos, questions_emit(questions).bytes),
    ensures
        questions_at(bytes, pos, questions.len()) == Ok::<(Seq<QuestionView>, int), DnsError>(
            (lower_questions(questions), pos + questions_emit(questions).bytes.len()),
        ),
    decreases questions.len(),
{
    if questions.len() == 0 {
        assert(lower_questions(questions) =~= Seq::empty());
    } else {
        let first = questions[0];
        let rest = questions.drop_first();
        let head = question_emit(first);
        lemma_holds_split(bytes, pos, head.bytes, questions_emit(rest).bytes);
        lemma_question_reads_back(bytes, pos, first);
        lemma_questions_read_back(bytes, pos + head.bytes.len(), rest);
        assert(seq![lower_question(first)] + lower_questions(rest) =~= lower_questions(questions));
    }
}

/// Address records read back as they were written, one after the other.
pub proof fn lemma_records_read_back(bytes: Seq<u8>, pos: int, records: Seq<RecordView>)
    requires
        forall|i: int| 0 <= i < records.len() ==> record_round_trips(#[trigger] records[i]),
        records_emit(records).complete,
        holds(bytes, pos, records_emit(records).bytes),
    ensures
        records_at(bytes, pos, records.len()) == Ok::<(Seq<RecordView>, int), DnsError>(
            (lower_records(records), pos + records_emit(records).bytes.len()),
        ),
    decreases records.len(),
{
    if records.len() == 0 {
        assert(lower_records(records) =~= Seq::empty());
    } else {
        let first = records[0];
        let rest = records.drop_first();
        let head = record_emit(first);
        lemma_holds_split(bytes, pos, head.bytes, records_emit(rest).bytes);
        lemma_record_reads_back(bytes, pos, first);
        lemma_records_read_back(bytes, pos + head.bytes.len(), rest);
        assert(seq![lower_record(first)] + lower_records(rest) =~= lower_records(records));
    }
}

/// Questions that were all written took at least five bytes each: one for
/// the name and four for type and class.
pub proof fn lemma_questions_emit_len(questions: Seq<QuestionView>)
    requires
        questions_emit(questions).complete,
    ensures
        questions_emit(questions).bytes.len() >= 5 * questions.len(),
    decreases questions.len(),
{
    if questions.len() > 0 {
        lemma_labels_emit_len(split_labels(encode_utf8(questions[0].name)));
        lemma_questions_emit_len(questions.drop_first());
    }
}

/// Address records that were all written took at least fifteen bytes each:
/// one for the name and fourteen for what follows it.
pub proof fn lemma_records_emit_len(records: Seq<RecordView>)
    requires
        forall|i: int| 0 <= i < records.len() ==> #[trigger] records[i] is A,
        records_emit(records).complete,
    ensures
        records_emit(records).bytes.len() >= 15 * records.len(),
    decreases records.len(),
{
    if records.len() > 0 {
        let rest = records.drop_first();
        lemma_labels_emit_len(split_labels(encode_utf8(records[0]->A_domain)));
        lemma_records_emit_len(rest);
    }
}

/// What of a message comes back as it went out: an opcode of at most four
/// bits, questions and records that come back, and sections that a 16-bit
/// count can tell the length of.
pub open spec fn packet_round_trips(p: PacketView) -> bool {
    &&& p.header.opcode < 16
    &&& forall|i: int|
        0 <= i < p.questions.len() ==> question_round_trips(#[trigger] p.questions[i])
    &&& forall|i: int| 0 <= i < p.answers.len() ==> record_round_trips(#[trigger] p.answers[i])
    &&& forall|i: int|
        0 <= i < p.authorities.len() ==> record_round_trips(#[trigger] p.authorities[i])
    &&& forall|i: int| 0 <= i < p.resources.len() ==> record_round_trips(#[trigger] p.resources[i])
    &&& p.questions.len() <= u16::MAX
    &&& p.answers.len() <= u16::MAX
    &&& p.authorities.len() <= u16::MAX
    &&& p.resources.len() <= u16::MAX
}

/// The message with all its names in lower case.
pub open spec fn lower_packet(p: PacketView) -> PacketView {
    PacketView {
        header: p.header,
        questions: lower_questions(p.questions),
        answers: lower_records(p.answers),
        authorities: lower_records(p.authorities),
        resources: lower_records(p.resources),
    }
}

/// A message that was written in full reads back as it was written, with
/// its counts set and its names in lower case.
pub proof fn lemma_packet_reads_back(bytes: Seq<u8>, pos: int, p: PacketView)
    requires
        packet_round_trips(p),
        packet_emit(with_counts(p)).complete,
        holds(bytes, pos, packet_emit(with_counts(p)).bytes),
    ensures
        packet_at(bytes, pos) == Ok::<(PacketView, int), DnsError>(
            (lower_packet(with_counts(p)), pos + packet_emit(with_counts(p)).bytes.len()),
        ),
{
    let c = with_counts(p);
    let head = header_wire(c.header);
    let qd = questions_emit(p.questions);
    let an = records_emit(p.answers);
    let ns = records_emit(p.authorities);
    let ar = records_emit(p.resources);
    lemma_holds_split(bytes, pos, head, qd.bytes + (an.bytes + (ns.bytes + ar.bytes)));
    let q_end = pos + 12;
    lemma_holds_split(bytes, q_end, qd.bytes, an.bytes + (ns.bytes + ar.bytes));
    let an_end = q_end + qd.bytes.len();
    lemma_holds_split(bytes, an_end, an.bytes, ns.bytes + ar.bytes);
    let ns_end = an_end + an.bytes.len();
    lemma_holds_split(bytes, ns_end, ns.bytes, ar.bytes);
    let ar_end = ns_end + ns.bytes.len();
    lemma_header_reads_back(bytes, pos, c.header);
    lemma_questions_read_back(bytes, q_end, p.questions);
    lemma_records_read_back(bytes, an_end, p.answers);
    lemma_records_read_back(bytes, ns_end, p.authorities);
    lemma_records_read_back(bytes, ar_end, p.resources);
}

/// Decoding inverts encoding. Let a message hold only address records, let
/// all its names be ASCII without an empty label, let its opcode have at
/// most four bits and let no question ask for the address type by the name
/// of an unknown type. If encoding it succeeds, then decoding from where
/// the encoding began gives the message back, with the counts of its header
/// set to the lengths of its sections and with its names in lower case, and
/// ends where the encoding ended.
pub proof fn lemma_decode_inverts_encode(
    p: PacketView,
    pre: BytePacketBuffer,
    post: BytePacketBuffer,
)
    requires
        p.header.opcode < 16,
        forall|i: int|
            0 <= i < p.questions.len() ==> question_round_trips(#[trigger] p.questions[i]),
        forall|i: int| 0 <= i < p.answers.len() ==> record_round_trips(#[trigger] p.answers[i]),
        forall|i: int|
            0 <= i < p.authorities.len() ==> record_round_trips(#[trigger] p.authorities[i]),
        forall|i: int|
            0 <= i < p.resources.len() ==> record_round_trips(#[trigger] p.resources[i]),
        wrote(pre, post, packet_emit(with_counts(p)).bytes),
        packet_emit(with_counts(p)).result(pre.room()) is Ok,
    ensures
        packet_at(post.buf@, pre.pos as int) == Ok::<(PacketView, int), DnsError>(
            (lower_packet(with_counts(p)), post.pos as int),
        ),
{
    let c = with_counts(p);
    let whole = packet_emit(c);
    let qd = questions_emit(p.questions);
    let an = records_emit(p.answers);
    let ns = records_emit(p.authorities);
    let ar = records_emit(p.resources);
    assert(whole.bytes =~= header_wire(c.header) + (qd.bytes + (an.bytes + (ns.bytes
        + ar.bytes))));
    lemma_questions_emit_len(p.questions);
    lemma_records_emit_len(p.answers);
    lemma_records_emit_len(p.authorities);
    lemma_records_emit_len(p.resources);
    lemma_packet_reads_back(post.buf@, pre.pos as int, p);
}

/// The labels on the wire, one after the other, without a closing byte.
pub open spec fn labels_wire(labels: Seq<Seq<u8>>) -> Seq<u8>
    decreases labels.len(),
{
    if labels.len() == 0 {
        Seq::empty()
    } else {
        label_wire(labels[0]) + labels_wire(labels.drop_first())
    }
}

/// Labels that stand in full are read one by one, and the name goes on with
/// what stands behind them.
pub proof fn lemma_labels_read_first(bytes: Seq<u8>, pos: int, labels: Seq<Seq<u8>>, hops: nat)
    requires
        hops <= MAX_JUMPS,
        plain_labels(labels),
        holds(bytes, pos, labels_wire(labels)),
    ensures
        name_at(bytes, pos, hops) == (match name_at(
            bytes,
            pos + labels_wire(labels).len(),
            hops,
        ) {
            Ok((rest, next)) => Ok::<(Seq<Seq<u8>>, int), DnsError>((labels + rest, next)),
            Err(e) => Err(e),
        }),
    decreases labels.len(),
{
    if labels.len() == 0 {
        match name_at(bytes, pos, hops) {
            Ok((rest, _)) => {
                assert(labels + rest =~= rest);
            },
            Err(_) => {},
        }
    } else {
        let label = labels[0];
        let others = labels.drop_first();
        let n = label.len() as u8;
        lemma_holds_split(bytes, pos, label_wire(label), labels_wire(others));
        lemma_holds_split(bytes, pos, seq![n], label);
        assert(bytes[pos + 0] == seq![n][0]);
        assert(!is_pointer(n)) by (bit_vector)
            requires
                n <= 63,
        ;
        let end = pos + 1 + n;
        assert(bytes.subrange(pos + 1, end) =~= label);
        lemma_labels_read_first(bytes, end, others, hops);
        match name_at(bytes, end + labels_wire(others).len(), hops) {
            Ok((rest, _)) => {
                assert(seq![label] + (others + rest) =~= labels + rest);
            },
            Err(_) => {},
        }
    }
}

/// A compressed name reads as the same name written out. Let a name stand
/// at `pos` as some labels and then a pointer, and let the pointer aim at
/// labels that stand in full. Then the name reads as the first labels and
/// then the others, and the reader goes on behind the pointer. A buffer
/// that holds all these labels in full, with no pointer, reads as the same
/// labels, and so as the same text.
pub proof fn lemma_pointer_reads_as_written_out(
    bytes: Seq<u8>,
    pos: int,
    first: Seq<Seq<u8>>,
    others: Seq<Seq<u8>>,
    full: Seq<u8>,
    at: int,
)
    requires
        plain_labels(first),
        plain_labels(others),
        holds(bytes, pos, labels_wire(first)),
        pos + labels_wire(first).len() + 2 <= bytes.len(),
        is_pointer(bytes[pos + labels_wire(first).len()]),
        holds(
            bytes,
            pointer_target(
                bytes[pos + labels_wire(first).len()],
                bytes[pos + labels_wire(first).len() + 1],
            ),
            labels_emit(others).bytes,
        ),
        holds(full, at, labels_emit(first + others).bytes),
    ensures
        name_at(bytes, pos, 0) == Ok::<(Seq<Seq<u8>>, int), DnsError>(
            (first + others, pos + labels_wire(first).len() + 2),
        ),
        name_at(full, at, 0) == Ok::<(Seq<Seq<u8>>, int), DnsError>(
            (first + others, at + labels_emit(first + others).bytes.len()),
        ),
{
    let p = pos + labels_wire(first).len();
    let target = pointer_target(bytes[p], bytes[p + 1]);
    lemma_labels_read_back(bytes, target, others, 1);
    lemma_labels_read_first(bytes, pos, first, 0);
    lemma_labels_read_back(full, at, first + others, 0);
}

/// Reading from `pos` on meets at least `count` pointers, with or without
/// labels between them.
pub open spec fn meets_pointers(bytes: Seq<u8>, pos: int, count: nat) -> bool
    decreases count, bytes.len() - pos,
{
    if count == 0 {
        true
    } else if pos < 0 || pos >= bytes.len() {
        false
    } else if is_pointer(bytes[pos]) {
        pos + 1 < bytes.len() && meets_pointers(
            bytes,
            pointer_target(bytes[pos], bytes[pos + 1]),
            (count - 1) as nat,
        )
    } else {
        bytes[pos] != 0 && pos + 1 + bytes[pos] <= bytes.len() && meets_pointers(
            bytes,
            pos + 1 + bytes[pos],
            count,
        )
    }
}

/// A name that leads over more pointers than the limit allows fails as a
/// compression loop, wherever the pointers aim.
pub proof fn lemma_long_chain_fails(bytes: Seq<u8>, pos: int, hops: nat)
    requires
        hops <= MAX_JUMPS + 1,
        meets_pointers(bytes, pos, (MAX_JUMPS + 1 - hops) as nat),
    ensures
        name_at(bytes, pos, hops) == Err::<(Seq<Seq<u8>>, int), DnsError>(
            DnsError::CompressionLoop,
        ),
    decreases MAX_JUMPS + 1 - hops, bytes.len() - pos,
{
    if hops <= MAX_JUMPS {
        if is_pointer(bytes[pos]) {
            lemma_long_chain_fails(bytes, pointer_target(bytes[pos], bytes[pos + 1]), hops + 1);
        } else {
            lemma_long_chain_fails(bytes, pos + 1 + bytes[pos], hops);
        }
    }
}

/// A name that was read took at least one byte and ended in the buffer;
/// one that was not read failed for want of bytes or for a compression
/// loop.
pub proof fn lemma_name_takes_room(bytes: Seq<u8>, pos: int, hops: nat)
    ensures
        match name_at(bytes, pos, hops) {
            Ok((_, next)) => 0 <= pos && pos + 1 <= next <= bytes.len(),
            Err(e) => e == DnsError::BufferOverrun || e == DnsError::CompressionLoop,
        },
    decreases MAX_JUMPS + 1 - hops, bytes.len() - pos,
{
    if hops <= MAX_JUMPS && 0 <= pos < bytes.len() {
        if is_pointer(bytes[pos]) {
            if pos + 1 < bytes.len() {
                lemma_name_takes_room(bytes, pointer_target(bytes[pos], bytes[pos + 1]), hops + 1);
            }
        } else if bytes[pos] != 0 {
            if pos + 1 + bytes[pos] <= bytes.len() {
                lemma_name_takes_room(bytes, pos + 1 + bytes[pos], hops);
            }
        }
    }
}

/// Questions that were read are as many as were asked for, took at least
/// five bytes each and ended in the buffer.
pub proof fn lemma_questions_take_room(bytes: Seq<u8>, pos: int, count: nat)
    ensures
        match questions_at(bytes, pos, count) {
            Ok((questions, end)) => {
                &&& questions.len() == count
                &&& pos + 5 * count <= end
                &&& count > 0 ==> end <= bytes.len()
            },
            Err(e) => e == DnsError::BufferOverrun || e == DnsError::CompressionLoop,
        },
    decreases count,
{
    if count > 0 {
        lemma_name_takes_room(bytes, pos, 0);
        match question_at(bytes, pos) {
            Ok((_, next)) => {
                lemma_questions_take_room(bytes, next, (count - 1) as nat);
            },
            Err(_) => {},
        }
    }
}

/// Records that were read are as many as were asked for, took at least
/// eleven bytes each and ended in the buffer.
pub proof fn lemma_records_take_room(bytes: Seq<u8>, pos: int, count: nat)
    ensures
        match records_at(bytes, pos, count) {
            Ok((records, end)) => {
                &&& records.len() == count
                &&& pos + 11 * count <= end
                &&& count > 0 ==> end <= bytes.len()
            },
            Err(e) => e == DnsError::BufferOverrun || e == DnsError::CompressionLoop,
        },
    decreases count,
{
    if count > 0 {
        lemma_name_takes_room(bytes, pos, 0);
        match record_at(bytes, pos) {
            Ok((_, next)) => {
                lemma_records_take_room(bytes, next, (count - 1) as nat);
            },
            Err(_) => {},
        }
    }
}

/// A header that counts more entries than the buffer has room for makes
/// decoding fail. A message that was decoded has in each section as many
/// entries as its header counts, never fewer; its questions took at least
/// five bytes each and its records at least eleven, behind the twelve of
/// the header, and all of them lie in the buffer. Decoding fails for want
/// of bytes, unless a compression loop came first.
pub proof fn lemma_counts_need_room(bytes: Seq<u8>, pos: int)
    ensures
        match packet_at(bytes, pos) {
            Ok((p, end)) => {
                &&& p.header == header_at(bytes, pos)
                &&& p.questions.len() == p.header.questions
                &&& p.answers.len() == p.header.answers
                &&& p.authorities.len() == p.header.authoritative_entries
                &&& p.resources.len() == p.header.resource_entries
                &&& pos + 12 + 5 * p.header.questions + 11 * (p.header.answers
                    + p.header.authoritative_entries + p.header.resource_entries) <= end
                &&& end <= bytes.len()
            },
            Err(e) => e == DnsError::BufferOverrun || e == DnsError::CompressionLoop,
        },
{
    if pos + 12 <= bytes.len() {
        let h = header_at(bytes, pos);
        lemma_questions_take_room(bytes, pos + 12, h.questions as nat);
        match questions_at(bytes, pos + 12, h.questions as nat) {
            Ok((_, q_end)) => {
                lemma_records_take_room(bytes, q_end, h.answers as nat);
                match records_at(bytes, q_end, h.answers as nat) {
                    Ok((_, an_end)) => {
                        lemma_records_take_room(bytes, an_end, h.authoritative_entries as nat);
                        match records_at(bytes, an_end, h.authoritative_entries as nat) {
                            Ok((_, ns_end)) => {
                                lemma_records_take_room(bytes, ns_end, h.resource_entries as nat);
                            },
                            Err(_) => {},
                        }
                    },
                    Err(_) => {},
                }
            },
            Err(_) => {},
        }
    }
}

/// A record of unknown type takes its name, ten bytes and exactly as many
/// bytes of payload as it declares, and the records behind it are read from
/// where it ends.
pub proof fn lemma_unknown_record_skips_payload(bytes: Seq<u8>, pos: int, more: nat)
    ensures
        match record_at(bytes, pos) {
            Ok((RecordView::UNKNOWN { domain, qtype, data_len, ttl }, next)) => {
                &&& name_at(bytes, pos, 0) is Ok
                &&& data_len == be16(bytes, name_at(bytes, pos, 0)->Ok_0.1 + 8)
                &&& next == name_at(bytes, pos, 0)->Ok_0.1 + 10 + data_len
                &&& next <= bytes.len()
                &&& records_at(bytes, pos, more + 1) == (match records_at(bytes, next, more) {
                    Ok((rest, end)) => Ok::<(Seq<RecordView>, int), DnsError>(
                        (
                            seq![RecordView::UNKNOWN { domain, qtype, data_len, ttl }] + rest,
                            end,
                        ),
                    ),
                    Err(e) => Err(e),
                })
            },
            _ => true,
        },
{
}

} // verus!
