//! Whole messages: the fixed header, the question section and the three
//! record sections.
use rand::Rng;
use vstd::prelude::*;

use crate::deserialization::{
    lemma_be16_read, lemma_collection_prefix, lemma_subrange_part, lemma_words_prefix,
    pop_collection, pop_u16, spec_collection, spec_prefix_ok, spec_u16_at, DecodeError, FromBytes,
};
use crate::domain_name::{
    lemma_name_prefix, lemma_name_wire_read, spec_name_at, spec_name_wire, spec_valid_name,
    DomainName,
};
use crate::record::{
    lemma_kind_code_injective, lemma_records_prefix_closed, spec_class_code, spec_kind_code, Class,
    Kind, Record, RecordModel,
};
use crate::serialization::{be16, push_u16};

verus! {

/// The 16-bit flags word of a message.
#[derive(Debug, Clone, Copy, Default)]
pub struct Flags(u16);

impl View for Flags {
    type V = u16;

    closed spec fn view(&self) -> u16 {
        self.0
    }
}

/// The bit that asks the server to resolve recursively.
pub const RECURSION_DESIRED: u16 = 0x0100;

impl Flags {
    /// No flag set.
    pub fn new() -> (r: Flags)
        ensures
            r@ == 0,
    {
        Flags(0)
    }

    /// The same flags with recursion desired set.
    pub fn with_recusion(self) -> (r: Flags)
        ensures
            r@ == self@ | RECURSION_DESIRED,
    {
        Flags(self.0 | RECURSION_DESIRED)
    }
}

/// Whether bit `offset` of `flags` is set, bit 0 being the lowest.
pub open spec fn spec_flag_set(flags: u16, offset: u16) -> bool {
    (flags >> offset) & 1 == 1
}

/// `one_label` where bit `offset` of `flags` is set, `zero_label` where not.
pub fn flag_label<'a>(flags: u16, offset: u16, zero_label: &'a str, one_label: &'a str) -> (r: &'a str)
    requires
        offset < 16,
    ensures
        r == if spec_flag_set(flags, offset) {
            one_label
        } else {
            zero_label
        },
{
    let bit: u16 = 1u16 << offset;
    assert((flags & bit) == bit <==> ((flags >> offset) & 1u16) == 1u16) by (bit_vector)
        requires
            offset < 16,
            bit == 1u16 << offset,
    ;
    if (flags & bit) == bit {
        one_label
    } else {
        zero_label
    }
}

/// The fixed header: transaction id, flags and the four section counts.
#[derive(Debug, Clone, Copy, PartialEq, Eq, Structural)]
pub struct Header {
    pub id: u16,
    pub flags: u16,
    pub questions: u16,
    pub answers: u16,
    pub authorities: u16,
    pub additionals: u16,
}

impl View for Header {
    type V = Header;

    open spec fn view(&self) -> Header {
        *self
    }
}

/// The twelve bytes of a header: each word big-endian, in field order.
pub open spec fn spec_header_wire(h: Header) -> Seq<u8> {
    be16(h.id) + be16(h.flags) + be16(h.questions) + be16(h.answers) + be16(h.authorities) + be16(
        h.additionals,
    )
}

impl Header {
    pub fn to_bytes(&self) -> (r: Vec<u8>)
        ensures
            r@ == spec_header_wire(*self),
    {
        let mut buf: Vec<u8> = Vec::new();
        push_u16(&mut buf, self.id);
        push_u16(&mut buf, self.flags);
        push_u16(&mut buf, self.questions);
        push_u16(&mut buf, self.answers);
        push_u16(&mut buf, self.authorities);
        push_u16(&mut buf, self.additionals);
        assert(buf@ =~= spec_header_wire(*self));
        buf
    }
}

impl FromBytes for Header {
    open spec fn spec_from_bytes(buf: Seq<u8>, pos: int) -> Result<(Header, int), DecodeError> {
        if 0 <= pos && pos + 12 <= buf.len() {
            Ok(
                (
                    Header {
                        id: spec_u16_at(buf, pos)->Some_0,
                        flags: spec_u16_at(buf, pos + 2)->Some_0,
                        questions: spec_u16_at(buf, pos + 4)->Some_0,
                        answers: spec_u16_at(buf, pos + 6)->Some_0,
                        authorities: spec_u16_at(buf, pos + 8)->Some_0,
                        additionals: spec_u16_at(buf, pos + 10)->Some_0,
                    },
                    pos + 12,
                ),
            )
        } else {
            Err(DecodeError::TruncatedBuffer)
        }
    }

    fn from_bytes(buf: &[u8], cursor: &mut usize) -> (r: Result<Header, DecodeError>) {
        if *cursor > buf.len() || buf.len() - *cursor < 12 {
            return Err(DecodeError::TruncatedBuffer);
        }
        let id = pop_u16(buf, cursor).unwrap();
        let flags = pop_u16(buf, cursor).unwrap();
        let questions = pop_u16(buf, cursor).unwrap();
        let answers = pop_u16(buf, cursor).unwrap();
        let authorities = pop_u16(buf, cursor).unwrap();
        let additionals = pop_u16(buf, cursor).unwrap();
        Ok(Header { id, flags, questions, answers, authorities, additionals })
    }
}

/// A query entry: the name asked about, the record type and the class.
#[derive(Debug, Clone, Default)]
pub struct Question {
    name: DomainName,
    kind: Kind,
    class: Class,
}

/// The view of a question.
pub struct QuestionModel {
    pub name: Seq<char>,
    pub kind: Kind,
    pub class: Class,
}

impl View for Question {
    type V = QuestionModel;

    closed spec fn view(&self) -> QuestionModel {
        QuestionModel { name: self.name@, kind: self.kind, class: self.class }
    }
}

/// The wire form of a question: its name uncompressed, then type and class.
pub open spec fn spec_question_wire(q: QuestionModel) -> Seq<u8> {
    spec_name_wire(q.name) + be16(spec_kind_code(q.kind)) + be16(spec_class_code(q.class))
}

/// The question at `pos`: name, type, class.
pub open spec fn spec_question(buf: Seq<u8>, pos: int) -> Result<(QuestionModel, int), DecodeError> {
    match spec_name_at(buf, pos) {
        Err(e) => Err(e),
        Ok((name, at1)) => match Kind::spec_from_bytes(buf, at1) {
            Err(e) => Err(e),
            Ok((kind, at2)) => match Class::spec_from_bytes(buf, at2) {
                Err(e) => Err(e),
                Ok((class, at3)) => Ok((QuestionModel { name, kind, class }, at3)),
            },
        },
    }
}

impl Question {
    /// A question of type A and class IN about the empty name.
    pub fn new() -> (r: Question)
        ensures
            r@ == (QuestionModel { name: Seq::empty(), kind: Kind::A, class: Class::Internet }),
    {
        Question { name: DomainName::empty(), kind: Kind::A, class: Class::Internet }
    }

    pub fn with_domain_name(self, name: &str) -> (r: Question)
        ensures
            r@ == (QuestionModel { name: name@, ..self@ }),
    {
        Question { name: DomainName::new(name), ..self }
    }

    pub fn with_kind(self, kind: Kind) -> (r: Question)
        ensures
            r@ == (QuestionModel { kind, ..self@ }),
    {
        Question { kind, ..self }
    }

    /// A question of class IN about `name` and record type `kind`.
    pub fn build(name: &str, kind: Kind) -> (r: Question)
        ensures
            r@ == (QuestionModel { name: name@, kind, class: Class::Internet }),
    {
        let name = DomainName::new(name);
        Question { name, kind, class: Class::Internet }
    }

    pub fn to_bytes(&self) -> (r: Vec<u8>)
        ensures
            r@ == spec_question_wire(self@),
    {
        let mut buf: Vec<u8> = self.name.to_bytes();
        push_u16(&mut buf, self.kind.to_u16());
        push_u16(&mut buf, self.class.to_u16());
        buf
    }

    pub fn name(&self) -> (r: &DomainName)
        ensures
            r@ == self@.name,
    {
        &self.name
    }

    pub fn kind(&self) -> (r: Kind)
        ensures
            r == self@.kind,
    {
        self.kind
    }

    pub fn class(&self) -> (r: Class)
        ensures
            r == self@.class,
    {
        self.class
    }
}

impl FromBytes for Question {
    open spec fn spec_from_bytes(buf: Seq<u8>, pos: int) -> Result<(QuestionModel, int), DecodeError> {
        spec_question(buf, pos)
    }

    fn from_bytes(buf: &[u8], cursor: &mut usize) -> (r: Result<Question, DecodeError>) {
        let name = DomainName::from_bytes(buf, cursor)?;
        let kind = Kind::from_bytes(buf, cursor)?;
        let class = Class::from_bytes(buf, cursor)?;
        Ok(Question { name, kind, class })
    }
}

/// A DNS message.
#[derive(Debug, Clone, Default)]
pub struct Packet {
    pub id: u16,
    pub flags: u16,
    pub questions: Vec<Question>,
    pub answers: Vec<Record>,
    pub authorities: Vec<Record>,
    pub additionals: Vec<Record>,
}

/// The view of a message.
pub struct PacketModel {
    pub id: u16,
    pub flags: u16,
    pub questions: Seq<QuestionModel>,
    pub answers: Seq<RecordModel>,
    pub authorities: Seq<RecordModel>,
    pub additionals: Seq<RecordModel>,
}

impl View for Packet {
    type V = PacketModel;

    open spec fn view(&self) -> PacketModel {
        PacketModel {
            id: self.id,
            flags: self.flags,
            questions: self.questions@.map_values(|q: Question| q@),
            answers: self.answers@.map_values(|r: Record| r@),
            authorities: self.authorities@.map_values(|r: Record| r@),
            additionals: self.additionals@.map_values(|r: Record| r@),
        }
    }
}

/// The questions' wire forms one after the other.
pub open spec fn spec_questions_wire(qs: Seq<QuestionModel>) -> Seq<u8>
    decreases qs.len(),
{
    if qs.len() == 0 {
        Seq::empty()
    } else {
        spec_question_wire(qs[0]) + spec_questions_wire(qs.drop_first())
    }
}

/// The wire form of an outgoing query: a header with the real question count
/// and zero for the other three sections, then the questions.
pub open spec fn spec_query_wire(m: PacketModel) -> Seq<u8> {
    spec_header_wire(
        Header {
            id: m.id,
            flags: m.flags,
            questions: m.questions.len() as u16,
            answers: 0,
            authorities: 0,
            additionals: 0,
        },
    ) + spec_questions_wire(m.questions)
}

/// The message that `buf` holds, with the cursor after it: the header, then
/// exactly as many questions and records in each section as the header
/// counts. Bytes after the last record are not read.
pub open spec fn spec_message(buf: Seq<u8>) -> Result<(PacketModel, int), DecodeError> {
    match Header::spec_from_bytes(buf, 0) {
        Err(e) => Err(e),
        Ok((h, at0)) => match spec_collection::<Question>(buf, at0, h.questions as nat) {
            Err(e) => Err(e),
            Ok((questions, at1)) => match spec_collection::<Record>(buf, at1, h.answers as nat) {
                Err(e) => Err(e),
                Ok((answers, at2)) => match spec_collection::<Record>(
                    buf,
                    at2,
                    h.authorities as nat,
                ) {
                    Err(e) => Err(e),
                    Ok((authorities, at3)) => match spec_collection::<Record>(
                        buf,
                        at3,
                        h.additionals as nat,
                    ) {
                        Err(e) => Err(e),
                        Ok((additionals, at4)) => Ok(
                            (
                                PacketModel {
                                    id: h.id,
                                    flags: h.flags,
                                    questions,
                                    answers,
                                    authorities,
                                    additionals,
                                },
                                at4,
                            ),
                        ),
                    },
                },
            },
        },
    }
}

/// A random transaction id.
/// Relies on rand's `thread_rng` and `Rng::gen`: any 16-bit value may come.
#[verifier::external_body]
fn random_id() -> u16 {
    rand::thread_rng().gen()
}

impl Packet {
    /// An empty message with a random id and no flag set.
    pub fn new() -> (r: Packet)
        ensures
            r@.flags == 0,
            r@.questions.len() == 0,
            r@.answers.len() == 0,
            r@.authorities.len() == 0,
            r@.additionals.len() == 0,
    {
        let id = random_id();
        let flags: u16 = 0;
        let r = Packet {
            id,
            flags,
            questions: Vec::new(),
            answers: Vec::new(),
            authorities: Vec::new(),
            additionals: Vec::new(),
        };
        assert(r@.questions =~= Seq::empty());
        r
    }

    pub fn with_flags(self, flags: Flags) -> (r: Packet)
        ensures
            r@ == (PacketModel { flags: flags@, ..self@ }),
    {
        Packet { flags: flags.0, ..self }
    }

    /// The same message with `question` added at the end of its questions.
    pub fn with_question(self, question: Question) -> (r: Packet)
        ensures
            r@ == (PacketModel { questions: self@.questions.push(question@), ..self@ }),
    {
        let mut p = self;
        let ghost before = p.questions@;
        p.questions.push(question);
        assert(p.questions@.map_values(|q: Question| q@) =~= before.map_values(|q: Question| q@).push(
            question@,
        ));
        p
    }

    pub fn with_id(self, id: u16) -> (r: Packet)
        ensures
            r@ == (PacketModel { id, ..self@ }),
    {
        Packet { id, ..self }
    }

    /// The query form: header and questions only. The record sections are
    /// not written and counted as empty.
    pub fn to_bytes(&self) -> (r: Vec<u8>)
        requires
            self.questions@.len() <= u16::MAX,
        ensures
            r@ == spec_query_wire(self@),
    {
        let mut buf: Vec<u8> = Vec::new();
        push_u16(&mut buf, self.id);
        push_u16(&mut buf, self.flags);
        push_u16(&mut buf, self.questions.len() as u16);
        push_u16(&mut buf, 0);
        push_u16(&mut buf, 0);
        push_u16(&mut buf, 0);
        let ghost qs = self@.questions;
        let ghost head = buf@;
        assert(head =~= spec_header_wire(
            Header {
                id: self.id,
                flags: self.flags,
                questions: qs.len() as u16,
                answers: 0,
                authorities: 0,
                additionals: 0,
            },
        ));
        assert(qs.skip(0) =~= qs);
        assert(buf@ =~= buf@ + Seq::<u8>::empty());
        let mut i: usize = 0;
        while i < self.questions.len()
            invariant
                i <= self.questions@.len(),
                qs == self@.questions,
                buf@ + spec_questions_wire(qs.skip(i as int)) == head + spec_questions_wire(qs),
            decreases self.questions.len() - i,
        {
            let ghost prev = buf@;
            let bytes = self.questions[i].to_bytes();
            let mut j: usize = 0;
            while j < bytes.len()
                invariant
                    j <= bytes@.len(),
                    buf@ == prev + bytes@.take(j as int),
                decreases bytes.len() - j,
            {
                buf.push(bytes[j]);
                j += 1;
                assert(buf@ =~= prev + bytes@.take(j as int));
            }
            assert(bytes@.take(j as int) =~= bytes@);
            assert(qs.skip(i as int).drop_first() =~= qs.skip(i + 1));
            assert(qs.skip(i as int)[0] == qs[i as int]);
            assert(prev + (bytes@ + spec_questions_wire(qs.skip(i + 1))) =~= buf@
                + spec_questions_wire(qs.skip(i + 1)));
            i += 1;
        }
        assert(qs.skip(i as int) =~= Seq::<QuestionModel>::empty());
        assert(buf@ + Seq::<u8>::empty() =~= buf@);
        buf
    }

    /// Decodes a whole message: the header, then as many questions and
    /// records in each section as it counts. Any failure fails the whole
    /// decode.
    pub fn from_bytes(buf: &[u8]) -> (r: Result<Packet, DecodeError>)
        ensures
            match spec_message(buf@) {
                Ok((m, _)) => r matches Ok(p) && p@ == m,
                Err(e) => r == Err::<Packet, DecodeError>(e),
            },
    {
        let mut cursor: usize = 0;
        let header = Header::from_bytes(buf, &mut cursor)?;
        let questions = pop_collection::<Question>(buf, &mut cursor, header.questions as usize)?;
        let answers = pop_collection::<Record>(buf, &mut cursor, header.answers as usize)?;
        let authorities = pop_collection::<Record>(buf, &mut cursor, header.authorities as usize)?;
        let additionals = pop_collection::<Record>(buf, &mut cursor, header.additionals as usize)?;
        Ok(
            Packet {
                id: header.id,
                flags: header.flags,
                questions,
                answers,
                authorities,
                additionals,
            },
        )
    }
}

/// A question with a valid name, written at `p`, reads back as itself.
proof fn lemma_question_read(buf: Seq<u8>, p: int, q: QuestionModel)
    requires
        spec_valid_name(q.name),
        0 <= p,
        p + spec_question_wire(q).len() <= buf.len(),
        buf.subrange(p, p + spec_question_wire(q).len()) == spec_question_wire(q),
    ensures
        spec_question(buf, p) == Ok::<(QuestionModel, int), DecodeError>(
            (q, p + spec_question_wire(q).len()),
        ),
{
    let w = spec_question_wire(q);
    let nw = spec_name_wire(q.name);
    let n = nw.len() as int;
    lemma_subrange_part(buf, p, w, 0, n);
    assert(w.subrange(0, n) =~= nw);
    lemma_name_wire_read(buf, p, q.name);
    lemma_subrange_part(buf, p, w, n, n + 2);
    assert(w.subrange(n, n + 2) =~= be16(spec_kind_code(q.kind)));
    lemma_be16_read(buf, p + n, spec_kind_code(q.kind));
    lemma_kind_code_injective(q.kind, spec_kind_code(q.kind));
    lemma_subrange_part(buf, p, w, n + 2, n + 4);
    assert(w.subrange(n + 2, n + 4) =~= be16(spec_class_code(q.class)));
    lemma_be16_read(buf, p + n + 2, spec_class_code(q.class));
}

/// Questions with valid names, written one after the other at `p`, read
/// back as themselves.
proof fn lemma_questions_read(buf: Seq<u8>, p: int, qs: Seq<QuestionModel>)
    requires
        forall|i: int| 0 <= i < qs.len() ==> spec_valid_name(#[trigger] qs[i].name),
        0 <= p,
        p + spec_questions_wire(qs).len() <= buf.len(),
        buf.subrange(p, p + spec_questions_wire(qs).len()) == spec_questions_wire(qs),
    ensures
        spec_collection::<Question>(buf, p, qs.len()) == Ok::<(Seq<QuestionModel>, int), DecodeError>(
            (qs, p + spec_questions_wire(qs).len()),
        ),
    decreases qs.len(),
{
    if qs.len() > 0 {
        let w = spec_questions_wire(qs);
        let q = qs[0];
        let qw = spec_question_wire(q);
        let rest = qs.drop_first();
        let rw = spec_questions_wire(rest);
        assert(w == qw + rw);
        lemma_subrange_part(buf, p, w, 0, qw.len() as int);
        assert(w.subrange(0, qw.len() as int) =~= qw);
        lemma_question_read(buf, p, q);
        lemma_subrange_part(buf, p, w, qw.len() as int, w.len() as int);
        assert(w.subrange(qw.len() as int, w.len() as int) =~= rw);
        assert forall|i: int| 0 <= i < rest.len() implies spec_valid_name(#[trigger] rest[i].name) by {
            assert(rest[i] == qs[i + 1]);
        };
        lemma_questions_read(buf, p + qw.len(), rest);
        assert(seq![q] + rest =~= qs);
    } else {
        assert(qs =~= Seq::<QuestionModel>::empty());
    }
}

/// Decoding the query form of a message that holds only questions, at most
/// 65535 of them and each about a valid name, gives the message back.
pub proof fn lemma_query_round_trip(m: PacketModel)
    requires
        m.answers.len() == 0,
        m.authorities.len() == 0,
        m.additionals.len() == 0,
        m.questions.len() <= u16::MAX,
        forall|i: int| 0 <= i < m.questions.len() ==> spec_valid_name(#[trigger] m.questions[i].name),
    ensures
        spec_message(spec_query_wire(m)) == Ok::<(PacketModel, int), DecodeError>(
            (m, spec_query_wire(m).len() as int),
        ),
{
    let buf = spec_query_wire(m);
    let h = Header {
        id: m.id,
        flags: m.flags,
        questions: m.questions.len() as u16,
        answers: 0,
        authorities: 0,
        additionals: 0,
    };
    let hw = spec_header_wire(h);
    let qw = spec_questions_wire(m.questions);
    assert(buf == hw + qw);
    assert(hw.len() == 12);
    assert(buf.subrange(0, 2) =~= be16(h.id));
    lemma_be16_read(buf, 0, h.id);
    assert(buf.subrange(2, 4) =~= be16(h.flags));
    lemma_be16_read(buf, 2, h.flags);
    assert(buf.subrange(4, 6) =~= be16(h.questions));
    lemma_be16_read(buf, 4, h.questions);
    assert(buf.subrange(6, 8) =~= be16(0));
    lemma_be16_read(buf, 6, 0);
    assert(buf.subrange(8, 10) =~= be16(0));
    lemma_be16_read(buf, 8, 0);
    assert(buf.subrange(10, 12) =~= be16(0));
    lemma_be16_read(buf, 10, 0);
    assert(buf.subrange(12, 12 + qw.len() as int) =~= qw);
    lemma_questions_read(buf, 12, m.questions);
    assert(h.questions as nat == m.questions.len());
    assert(m.answers =~= Seq::<RecordModel>::empty());
    assert(m.authorities =~= Seq::<RecordModel>::empty());
    assert(m.additionals =~= Seq::<RecordModel>::empty());
}

/// A question read from the first `p` bytes is that read from the full
/// buffer, or a truncation; a truncation where the question ends beyond `p`.
proof fn lemma_question_prefix(buf: Seq<u8>, p: int, pos: int)
    requires
        0 <= p <= buf.len(),
        spec_question(buf, pos) is Ok,
    ensures
        spec_prefix_ok(spec_question(buf, pos), spec_question(buf.take(p), pos), p),
{
    lemma_name_prefix(buf, p, pos);
    let at1 = spec_name_at(buf, pos)->Ok_0.1;
    lemma_words_prefix(buf, p, at1);
    lemma_words_prefix(buf, p, at1 + 2);
}

/// Every strict prefix of a message that reads to its last byte fails to
/// read with `TruncatedBuffer`: never a partial message.
pub proof fn lemma_truncated_prefix(buf: Seq<u8>, p: int)
    requires
        spec_message(buf) is Ok,
        spec_message(buf)->Ok_0.1 == buf.len(),
        0 <= p < buf.len(),
    ensures
        spec_message(buf.take(p)) == Err::<(PacketModel, int), DecodeError>(
            DecodeError::TruncatedBuffer,
        ),
{
    let t = buf.take(p);
    assert forall|pos: int| #[trigger] Question::spec_from_bytes(buf, pos) is Ok implies spec_prefix_ok(
        Question::spec_from_bytes(buf, pos),
        Question::spec_from_bytes(buf.take(p), pos),
        p,
    ) by {
        lemma_question_prefix(buf, p, pos);
    };
    lemma_records_prefix_closed(buf, p);
    if p < 12 {
    } else {
        lemma_words_prefix(buf, p, 0);
        lemma_words_prefix(buf, p, 2);
        lemma_words_prefix(buf, p, 4);
        lemma_words_prefix(buf, p, 6);
        lemma_words_prefix(buf, p, 8);
        lemma_words_prefix(buf, p, 10);
        let h = Header::spec_from_bytes(buf, 0)->Ok_0.0;
        assert(Header::spec_from_bytes(t, 0) == Header::spec_from_bytes(buf, 0));
        let c0 = spec_collection::<Question>(buf, 12, h.questions as nat);
        lemma_collection_prefix::<Question>(buf, p, 12, h.questions as nat);
        let at1 = c0->Ok_0.1;
        let c1 = spec_collection::<Record>(buf, at1, h.answers as nat);
        lemma_collection_prefix::<Record>(buf, p, at1, h.answers as nat);
        let at2 = c1->Ok_0.1;
        let c2 = spec_collection::<Record>(buf, at2, h.authorities as nat);
        lemma_collection_prefix::<Record>(buf, p, at2, h.authorities as nat);
        let at3 = c2->Ok_0.1;
        lemma_collection_prefix::<Record>(buf, p, at3, h.additionals as nat);
    }
}

} // verus!
