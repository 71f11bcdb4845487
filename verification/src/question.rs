//! The question section: QNAME + QTYPE + QCLASS entries, their plain and
//! offset-aware compressed codecs, and the proof that a compressed question
//! section parses back to the names it was built from.

use vstd::prelude::*;

use crate::compress::{
    compress_name_out, lemma_compress_name_roundtrip, lemma_parse_cname_extend, map_tracks,
    spec_parse_cname, SerializeCompressedOutcome,
};
use crate::label_map::{insert_from, LabelMap};
use crate::name::{lower_texts, spec_parse_name, wf_name, DomainName};
use crate::rr_types::{
    lemma_qclass_roundtrip, lemma_qtype_roundtrip, qclass_code, qclass_of, qtype_code, qtype_of,
    Qtype, ResourceRecordQClass,
};
use crate::wire::{lemma_u16_be_of, name_wire, push_u16_be, read_u16_be, u16_be, u16_of};
use crate::{MessageOffset, ParseDataError};

verus! {

/// The abstract content of a question: its name's label texts and its two
/// code fields.
pub ghost struct QuestionView {
    pub qname: Seq<Seq<u8>>,
    pub qtype: Qtype,
    pub qclass: ResourceRecordQClass,
}

/// The plain wire form of a question: the name, then QTYPE and QCLASS as
/// 16-bit big-endian fields.
pub open spec fn question_wire(q: QuestionView) -> Seq<u8> {
    name_wire(q.qname) + u16_be(qtype_code(q.qtype)) + u16_be(qclass_code(q.qclass))
}

/// The compressed wire form of a question against dictionary `m`.
pub open spec fn compress_question_out(m: Map<Seq<Seq<u8>>, u16>, q: QuestionView) -> Seq<u8> {
    compress_name_out(m, q.qname) + u16_be(qtype_code(q.qtype)) + u16_be(qclass_code(q.qclass))
}

/// Parse a plain question at `pos`: a plain name, then two in-range 16-bit
/// codes.
pub open spec fn spec_parse_question(b: Seq<u8>, pos: int) -> Option<(QuestionView, int)> {
    match spec_parse_name(b, pos) {
        None => None,
        Some((ls, e)) => if e + 4 <= b.len() {
            match (qtype_of(u16_of(b[e], b[e + 1])), qclass_of(u16_of(b[e + 2], b[e + 3]))) {
                (Some(t), Some(c)) => Some(
                    (QuestionView { qname: ls, qtype: t, qclass: c }, e + 4),
                ),
                _ => None,
            }
        } else {
            None
        },
    }
}

/// Parse a compressed question at `pos`: a possibly compressed name, then two
/// in-range 16-bit codes. Any failure surfaces as a malformed structure.
pub open spec fn spec_parse_cquestion(b: Seq<u8>, pos: int) -> Result<
    (QuestionView, int),
    ParseDataError,
> {
    match spec_parse_cname(b, pos, pos) {
        Err(_) => Err(ParseDataError::InvalidByteStructure),
        Ok((ls, e)) => if e + 4 <= b.len() {
            match (qtype_of(u16_of(b[e], b[e + 1])), qclass_of(u16_of(b[e + 2], b[e + 3]))) {
                (Some(t), Some(c)) => Ok((QuestionView { qname: ls, qtype: t, qclass: c }, e + 4)),
                _ => Err(ParseDataError::InvalidByteStructure),
            }
        } else {
            Err(ParseDataError::InvalidByteStructure)
        },
    }
}

/// One entry of the question section.
#[derive(Debug, PartialEq)]
pub struct Question {
    qname: DomainName,
    qtype: Qtype,
    qclass: ResourceRecordQClass,
}

impl View for Question {
    type V = QuestionView;

    closed spec fn view(&self) -> QuestionView {
        QuestionView { qname: self.qname@, qtype: self.qtype, qclass: self.qclass }
    }
}

impl Clone for Question {
    fn clone(&self) -> (r: Self)
        ensures
            r@ == self@,
    {
        Question { qname: self.qname.clone(), qtype: self.qtype, qclass: self.qclass }
    }
}

impl Question {
    pub fn new(qname: DomainName, qtype: Qtype, qclass: ResourceRecordQClass) -> (r: Self)
        ensures
            r@ == (QuestionView { qname: qname@, qtype, qclass }),
    {
        Question { qname, qtype, qclass }
    }

    pub fn qname(&self) -> (r: &DomainName)
        ensures
            r@ == self@.qname,
    {
        &self.qname
    }

    pub fn qtype(&self) -> (r: Qtype)
        ensures
            r == self@.qtype,
    {
        self.qtype
    }

    pub fn qclass(&self) -> (r: ResourceRecordQClass)
        ensures
            r == self@.qclass,
    {
        self.qclass
    }

    /// The plain wire form: QNAME, QTYPE, QCLASS.
    pub fn to_bytes(&self) -> (r: Vec<u8>)
        ensures
            r@ == question_wire(self@),
    {
        let mut out = self.qname.to_bytes();
        push_u16_be(&mut out, self.qtype.code());
        push_u16_be(&mut out, self.qclass.code());
        proof {
            assert(out@ =~= question_wire(self@));
        }
        out
    }

    /// Parse a plain question from the front of `bytes`. Returns the question
    /// and the count of bytes consumed.
    pub fn parse(bytes: &[u8]) -> (r: Result<(Self, usize), ParseDataError>)
        ensures
            match r {
                Ok(p) => spec_parse_question(bytes@, 0) == Some((p.0@, p.1 as int)),
                Err(e) => {
                    &&& spec_parse_question(bytes@, 0) is None
                    &&& e == ParseDataError::InvalidByteStructure
                },
            },
    {
        Self::parse_at(bytes, 0)
    }

    /// Parse a plain question at position `pos` of `bytes`.
    pub fn parse_at(bytes: &[u8], pos: usize) -> (r: Result<(Self, usize), ParseDataError>)
        ensures
            match r {
                Ok(p) => spec_parse_question(bytes@, pos as int) == Some((p.0@, p.1 as int)),
                Err(e) => {
                    &&& spec_parse_question(bytes@, pos as int) is None
                    &&& e == ParseDataError::InvalidByteStructure
                },
            },
    {
        let (qname, e) = match DomainName::parse_at(bytes, pos) {
            Ok(p) => p,
            Err(_) => {
                return Err(ParseDataError::InvalidByteStructure);
            },
        };
        if bytes.len() < 4 || e > bytes.len() - 4 {
            return Err(ParseDataError::InvalidByteStructure);
        }
        let qtype_code_v = read_u16_be(bytes, e);
        let qclass_code_v = read_u16_be(bytes, e + 2);
        let qtype = match Qtype::try_from(qtype_code_v) {
            Ok(t) => t,
            Err(_) => {
                return Err(ParseDataError::InvalidByteStructure);
            },
        };
        let qclass = match ResourceRecordQClass::try_from(qclass_code_v) {
            Ok(c) => c,
            Err(_) => {
                return Err(ParseDataError::InvalidByteStructure);
            },
        };
        Ok((Question { qname, qtype, qclass }, e + 4))
    }

    /// Serialize the question against the dictionary: the name compressed per
    /// the dictionary, then the four code octets.
    pub fn to_bytes_compressed(&self, base_offset: MessageOffset, label_map: &mut LabelMap) -> (outcome:
        SerializeCompressedOutcome)
        requires
            old(label_map).wf(),
            self@.qname.len() > 0,
            base_offset + question_wire(self@).len() <= 0x4000,
        ensures
            final(label_map).wf(),
            final(label_map)@ == insert_from(
                old(label_map)@,
                lower_texts(self@.qname),
                base_offset as int,
                0,
            ),
            outcome.compressed_bytes@ == compress_question_out(old(label_map)@, self@),
            outcome.new_offset == base_offset + compress_question_out(old(label_map)@, self@).len(),
    {
        proof {
            crate::compress::lemma_compress_out_len(label_map@, self@.qname);
        }
        let result = self.qname.to_bytes_compressed(base_offset, label_map);
        let mut bytes = result.compressed_bytes;
        push_u16_be(&mut bytes, self.qtype.code());
        push_u16_be(&mut bytes, self.qclass.code());
        proof {
            assert(bytes@ =~= compress_question_out(old(label_map)@, self@));
        }
        SerializeCompressedOutcome {
            compressed_bytes: bytes,
            new_offset: result.new_offset + 4,
        }
    }

    /// Parse a compressed question at `base_offset` of the full message.
    /// Returns the question and the offset just after it.
    pub fn parse_compressed(full_message_bytes: &[u8], base_offset: MessageOffset) -> (r: Result<
        (Self, MessageOffset),
        ParseDataError,
    >)
        requires
            full_message_bytes@.len() <= 0xFFFF,
        ensures
            match r {
                Ok(p) => spec_parse_cquestion(full_message_bytes@, base_offset as int) == Ok::<
                    (QuestionView, int),
                    ParseDataError,
                >((p.0@, p.1 as int)),
                Err(e) => {
                    &&& spec_parse_cquestion(full_message_bytes@, base_offset as int) is Err
                    &&& e == ParseDataError::InvalidByteStructure
                },
            },
    {
        let (qname, e) = match DomainName::parse_compressed(full_message_bytes, base_offset) {
            Ok(p) => p,
            Err(_) => {
                return Err(ParseDataError::InvalidByteStructure);
            },
        };
        let e = e as usize;
        if full_message_bytes.len() < 4 || e > full_message_bytes.len() - 4 {
            return Err(ParseDataError::InvalidByteStructure);
        }
        let qtype_code_v = read_u16_be(full_message_bytes, e);
        let qclass_code_v = read_u16_be(full_message_bytes, e + 2);
        let qtype = match Qtype::try_from(qtype_code_v) {
            Ok(t) => t,
            Err(_) => {
                return Err(ParseDataError::InvalidByteStructure);
            },
        };
        let qclass = match ResourceRecordQClass::try_from(qclass_code_v) {
            Ok(c) => c,
            Err(_) => {
                return Err(ParseDataError::InvalidByteStructure);
            },
        };
        Ok((Question { qname, qtype, qclass }, (e + 4) as u16))
    }
}

/// The views of a run of questions.
pub open spec fn question_views(v: Seq<Question>) -> Seq<QuestionView> {
    v.map_values(|q: Question| q@)
}

/// The plain wire form of a question section: each question's wire form, in
/// order.
pub open spec fn questions_wire(qs: Seq<QuestionView>) -> Seq<u8>
    decreases qs.len(),
{
    if qs.len() == 0 {
        Seq::empty()
    } else {
        question_wire(qs[0]) + questions_wire(qs.drop_first())
    }
}

pub proof fn lemma_questions_wire_push(qs: Seq<QuestionView>, q: QuestionView)
    ensures
        questions_wire(qs.push(q)) == questions_wire(qs) + question_wire(q),
    decreases qs.len(),
{
    if qs.len() == 0 {
        assert(qs.push(q).drop_first() =~= qs);
        assert(questions_wire(qs.push(q)) =~= questions_wire(qs) + question_wire(q));
    } else {
        assert(qs.push(q).drop_first() =~= qs.drop_first().push(q));
        lemma_questions_wire_push(qs.drop_first(), q);
        assert(questions_wire(qs.push(q)) =~= questions_wire(qs) + question_wire(q));
    }
}

/// The compressed wire form of a question section against dictionary `m` at
/// `base`: each question in order, threading the rolling offset and the grown
/// dictionary into the next. Yields the bytes, the final offset, and the
/// final dictionary.
pub open spec fn compress_questions_out(
    m: Map<Seq<Seq<u8>>, u16>,
    qs: Seq<QuestionView>,
    base: int,
) -> (Seq<u8>, int, Map<Seq<Seq<u8>>, u16>)
    decreases qs.len(),
{
    if qs.len() == 0 {
        (Seq::empty(), base, m)
    } else {
        let out0 = compress_question_out(m, qs[0]);
        let m1 = insert_from(m, lower_texts(qs[0].qname), base, 0);
        let rest = compress_questions_out(m1, qs.drop_first(), base + out0.len());
        (out0 + rest.0, rest.1, rest.2)
    }
}

/// Parse `n` plain questions in sequence at `pos`.
pub open spec fn spec_parse_questions(b: Seq<u8>, pos: int, n: nat) -> Option<
    (Seq<QuestionView>, int),
>
    decreases n,
{
    if n == 0 {
        Some((Seq::empty(), pos))
    } else {
        match spec_parse_question(b, pos) {
            None => None,
            Some((q, e)) => match spec_parse_questions(b, e, (n - 1) as nat) {
                None => None,
                Some((qs, e2)) => Some((seq![q] + qs, e2)),
            },
        }
    }
}

/// Parse `n` compressed questions in sequence at `pos`.
pub open spec fn spec_parse_cquestions(b: Seq<u8>, pos: int, n: nat) -> Result<
    (Seq<QuestionView>, int),
    ParseDataError,
>
    decreases n,
{
    if n == 0 {
        Ok((Seq::empty(), pos))
    } else {
        match spec_parse_cquestion(b, pos) {
            Err(e) => Err(e),
            Ok((q, e)) => match spec_parse_cquestions(b, e, (n - 1) as nat) {
                Err(er) => Err(er),
                Ok((qs, e2)) => Ok((seq![q] + qs, e2)),
            },
        }
    }
}

/// The whole question section of a message. Nothing in the byte stream
/// delimits it, so parsing takes the expected count from QDCOUNT.
#[derive(Debug, PartialEq)]
pub struct MessageQuestions {
    questions: Vec<Question>,
}

impl View for MessageQuestions {
    type V = Seq<QuestionView>;

    closed spec fn view(&self) -> Seq<QuestionView> {
        question_views(self.questions@)
    }
}

impl MessageQuestions {
    pub fn new(questions: Vec<Question>) -> (r: Self)
        ensures
            r@ == question_views(questions@),
    {
        MessageQuestions { questions }
    }

    /// The questions, in order.
    pub fn questions(&self) -> (r: &Vec<Question>)
        ensures
            r@.len() == self@.len(),
            forall|i: int| 0 <= i < r@.len() ==> (#[trigger] r@[i])@ == self@[i],
    {
        &self.questions
    }

    /// The plain wire form: each question's bytes, in order.
    pub fn to_bytes(&self) -> (r: Vec<u8>)
        ensures
            r@ == questions_wire(self@),
    {
        let mut out: Vec<u8> = Vec::new();
        let n = self.questions.len();
        let mut i: usize = 0;
        proof {
            assert(self@.take(0int) =~= Seq::<QuestionView>::empty());
        }
        while i < n
            invariant
                0 <= i <= n,
                n == self.questions@.len(),
                out@ == questions_wire(self@.take(i as int)),
            decreases n - i,
        {
            let mut piece = self.questions[i].to_bytes();
            proof {
                assert(self@.take(i as int + 1) =~= self@.take(i as int).push(self@[i as int]));
                lemma_questions_wire_push(self@.take(i as int), self@[i as int]);
            }
            out.append(&mut piece);
            i += 1;
        }
        proof {
            assert(self@.take(n as int) =~= self@);
        }
        out
    }

    /// Parse `num_questions` plain questions from the front of `bytes`.
    /// Returns the section and the count of bytes consumed.
    pub fn parse(bytes: &[u8], num_questions: u16) -> (r: Result<(Self, usize), ParseDataError>)
        ensures
            match r {
                Ok(p) => spec_parse_questions(bytes@, 0, num_questions as nat) == Some(
                    (p.0@, p.1 as int),
                ),
                Err(e) => {
                    &&& spec_parse_questions(bytes@, 0, num_questions as nat) is None
                    &&& e == ParseDataError::InvalidByteStructure
                },
            },
    {
        let mut questions: Vec<Question> = Vec::new();
        let mut pos: usize = 0;
        let mut left = num_questions;
        proof {
            assert forall|qs2: Seq<QuestionView>|
                #[trigger] (question_views(questions@) + qs2) == qs2 by {
                assert(question_views(questions@) + qs2 =~= qs2);
            }
        }
        while left > 0
            invariant
                spec_parse_questions(bytes@, 0, num_questions as nat) == match spec_parse_questions(
                    bytes@,
                    pos as int,
                    left as nat,
                ) {
                    None => None::<(Seq<QuestionView>, int)>,
                    Some((qs2, e)) => Some((question_views(questions@) + qs2, e)),
                },
            decreases left,
        {
            match Question::parse_at(bytes, pos) {
                Err(_) => {
                    return Err(ParseDataError::InvalidByteStructure);
                },
                Ok((q, e)) => {
                    proof {
                        let cur = questions@;
                        assert forall|qs2: Seq<QuestionView>|
                            question_views(cur.push(q)) + qs2 =~= question_views(cur) + (seq![q@]
                                + qs2) by {
                            assert(question_views(cur.push(q)) =~= question_views(cur).push(q@));
                        }
                    }
                    questions.push(q);
                    pos = e;
                    left = left - 1;
                },
            }
        }
        proof {
            assert(question_views(questions@) + Seq::<QuestionView>::empty() =~= question_views(
                questions@,
            ));
        }
        Ok((MessageQuestions { questions }, pos))
    }

    /// Serialize the section against the dictionary, each question threading
    /// the rolling offset and the dictionary into the next.
    pub fn to_bytes_compressed(&self, base_offset: MessageOffset, label_map: &mut LabelMap) -> (outcome:
        SerializeCompressedOutcome)
        requires
            old(label_map).wf(),
            forall|i: int| 0 <= i < self@.len() ==> (#[trigger] self@[i]).qname.len() > 0,
            base_offset + questions_wire(self@).len() <= 0x4000,
        ensures
            final(label_map).wf(),
            ({
                let r = compress_questions_out(old(label_map)@, self@, base_offset as int);
                &&& outcome.compressed_bytes@ == r.0
                &&& outcome.new_offset == r.1
                &&& final(label_map)@ == r.2
            }),
    {
        let ghost m0 = label_map@;
        let ghost full = compress_questions_out(m0, self@, base_offset as int);
        let n = self.questions.len();
        let mut bytes: Vec<u8> = Vec::new();
        let mut rolling: u16 = base_offset;
        let mut i: usize = 0;
        proof {
            assert(self@.skip(0int) =~= self@);
            assert forall|x: Seq<u8>| #[trigger] (bytes@ + x) == x by {
                assert(bytes@ + x =~= x);
            }
        }
        while i < n
            invariant
                0 <= i <= n,
                n == self.questions@.len() == self@.len(),
                label_map.wf(),
                forall|j: int| 0 <= j < self@.len() ==> (#[trigger] self@[j]).qname.len() > 0,
                full == compress_questions_out(m0, self@, base_offset as int),
                rolling == base_offset + bytes@.len(),
                rolling + questions_wire(self@.skip(i as int)).len() <= 0x4000,
                full == ({
                    let rest = compress_questions_out(
                        label_map@,
                        self@.skip(i as int),
                        rolling as int,
                    );
                    (bytes@ + rest.0, rest.1, rest.2)
                }),
            decreases n - i,
        {
            let ghost skipped = self@.skip(i as int);
            proof {
                assert(skipped[0] == self@[i as int]);
                assert(skipped.drop_first() =~= self@.skip(i as int + 1));
                assert(questions_wire(skipped) == question_wire(skipped[0]) + questions_wire(
                    skipped.drop_first(),
                ));
                crate::compress::lemma_compress_out_len(label_map@, self@[i as int].qname);
                assert(compress_question_out(label_map@, self@[i as int]).len() <= question_wire(
                    self@[i as int],
                ).len());
            }
            let q = &self.questions[i];
            proof {
                assert(q@ == self@[i as int]);
            }
            let outcome = q.to_bytes_compressed(rolling, label_map);
            let mut piece = outcome.compressed_bytes;
            proof {
                assert((bytes@ + piece@) + compress_questions_out(
                    label_map@,
                    self@.skip(i as int + 1),
                    outcome.new_offset as int,
                ).0 =~= bytes@ + (piece@ + compress_questions_out(
                    label_map@,
                    self@.skip(i as int + 1),
                    outcome.new_offset as int,
                ).0));
            }
            bytes.append(&mut piece);
            rolling = outcome.new_offset;
            i += 1;
        }
        proof {
            assert(self@.skip(n as int) =~= Seq::<QuestionView>::empty());
            assert(bytes@ + Seq::<u8>::empty() =~= bytes@);
        }
        SerializeCompressedOutcome { compressed_bytes: bytes, new_offset: rolling }
    }

    /// Parse `num_questions` compressed questions at `base_offset` of the
    /// full message. Returns the section and the offset just after it.
    pub fn parse_compressed(
        full_message_bytes: &[u8],
        base_offset: MessageOffset,
        num_questions: u16,
    ) -> (r: Result<(Self, MessageOffset), ParseDataError>)
        requires
            full_message_bytes@.len() <= 0xFFFF,
        ensures
            match r {
                Ok(p) => spec_parse_cquestions(
                    full_message_bytes@,
                    base_offset as int,
                    num_questions as nat,
                ) == Ok::<(Seq<QuestionView>, int), ParseDataError>((p.0@, p.1 as int)),
                Err(e) => spec_parse_cquestions(
                    full_message_bytes@,
                    base_offset as int,
                    num_questions as nat,
                ) == Err::<(Seq<QuestionView>, int), ParseDataError>(e),
            },
    {
        let mut questions: Vec<Question> = Vec::new();
        let mut pos: u16 = base_offset;
        let mut left = num_questions;
        proof {
            assert forall|qs2: Seq<QuestionView>|
                #[trigger] (question_views(questions@) + qs2) == qs2 by {
                assert(question_views(questions@) + qs2 =~= qs2);
            }
        }
        while left > 0
            invariant
                full_message_bytes@.len() <= 0xFFFF,
                spec_parse_cquestions(full_message_bytes@, base_offset as int, num_questions as nat)
                    == match spec_parse_cquestions(full_message_bytes@, pos as int, left as nat) {
                    Err(er) => Err::<(Seq<QuestionView>, int), ParseDataError>(er),
                    Ok((qs2, e)) => Ok((question_views(questions@) + qs2, e)),
                },
            decreases left,
        {
            match Question::parse_compressed(full_message_bytes, pos) {
                Err(e) => {
                    return Err(e);
                },
                Ok((q, e)) => {
                    proof {
                        let cur = questions@;
                        assert forall|qs2: Seq<QuestionView>|
                            question_views(cur.push(q)) + qs2 =~= question_views(cur) + (seq![q@]
                                + qs2) by {
                            assert(question_views(cur.push(q)) =~= question_views(cur).push(q@));
                        }
                    }
                    questions.push(q);
                    pos = e;
                    left = left - 1;
                },
            }
        }
        proof {
            assert(question_views(questions@) + Seq::<QuestionView>::empty() =~= question_views(
                questions@,
            ));
        }
        Ok((MessageQuestions { questions }, pos))
    }
}

/// Compression round-trip for a question section: serializing any sequence of
/// questions with well-formed names against a truthful dictionary, and
/// parsing the result back with a fresh pass over the same bytes,
/// reconstructs names equal (case-insensitively) to the originals with the
/// same types and classes, and the final offset equals the serialized length.
#[verifier::rlimit(100)]
pub proof fn lemma_questions_compress_roundtrip(
    m: Map<Seq<Seq<u8>>, u16>,
    qs: Seq<QuestionView>,
    b: Seq<u8>,
)
    requires
        map_tracks(m, b),
        forall|i: int|
            0 <= i < qs.len() ==> wf_name((#[trigger] qs[i]).qname) && qs[i].qname.len() > 0,
        b.len() + questions_wire(qs).len() <= 0x4000,
    ensures
        ({
            let r = compress_questions_out(m, qs, b.len() as int);
            let b2 = b + r.0;
            &&& r.1 == b.len() + r.0.len()
            &&& map_tracks(r.2, b2)
            &&& match spec_parse_cquestions(b2, b.len() as int, qs.len()) {
                Ok((qs2, e)) => {
                    &&& qs2.len() == qs.len()
                    &&& forall|i: int|
                        0 <= i < qs.len() ==> lower_texts((#[trigger] qs2[i]).qname) == lower_texts(
                            qs[i].qname,
                        ) && qs2[i].qtype == qs[i].qtype && qs2[i].qclass == qs[i].qclass
                    &&& e == b.len() + r.0.len()
                },
                Err(_) => false,
            }
        }),
    decreases qs.len(),
{
    let base = b.len() as int;
    let r = compress_questions_out(m, qs, base);
    let b2 = b + r.0;
    if qs.len() == 0 {
        assert(b2 =~= b);
        assert(r.0.len() == 0);
    } else {
        let q0 = qs[0];
        let name_out = compress_name_out(m, q0.qname);
        let codes = u16_be(qtype_code(q0.qtype)) + u16_be(qclass_code(q0.qclass));
        let out0 = compress_question_out(m, q0);
        assert(out0 =~= name_out + codes);
        let m1 = insert_from(m, lower_texts(q0.qname), base, 0);
        let rest_r = compress_questions_out(m1, qs.drop_first(), base + out0.len());
        assert(r.0 =~= out0 + rest_r.0);
        assert(questions_wire(qs) == question_wire(q0) + questions_wire(qs.drop_first()));
        assert(question_wire(q0).len() == name_wire(q0.qname).len() + 4);
        crate::compress::lemma_compress_out_len(m, q0.qname);
        lemma_compress_name_roundtrip(m, q0.qname, b);
        // the name parsed against the full final buffer
        let bn = b + name_out;
        let tail = codes + rest_r.0;
        assert(b2 =~= bn + tail);
        match spec_parse_cname(bn, base, base) {
            Ok((ls2, e_name)) => {
                lemma_parse_cname_extend(bn, tail, base, base);
                assert(e_name == base + name_out.len());
                // the two code fields after the name
                assert(e_name + 4 <= b2.len());
                assert forall|t: int| 0 <= t < 4 implies b2[e_name + t] == codes[t] by {
                    assert(b2[e_name + t] == r.0[name_out.len() + t]);
                    assert(r.0[name_out.len() + t] == out0[name_out.len() + t]);
                }
                lemma_u16_be_of(qtype_code(q0.qtype));
                lemma_u16_be_of(qclass_code(q0.qclass));
                lemma_qtype_roundtrip(q0.qtype);
                lemma_qclass_roundtrip(q0.qclass);
                assert(u16_of(b2[e_name], b2[e_name + 1]) == qtype_code(q0.qtype));
                assert(u16_of(b2[e_name + 2], b2[e_name + 3]) == qclass_code(q0.qclass));
                let qv2 = QuestionView { qname: ls2, qtype: q0.qtype, qclass: q0.qclass };
                assert(spec_parse_cquestion(b2, base) == Ok::<(QuestionView, int), ParseDataError>(
                    (qv2, base + out0.len()),
                ));
                // the dictionary stays truthful past the code octets
                crate::compress::lemma_map_tracks_extend(m1, bn, codes);
                assert(bn + codes =~= b + out0);
                // the rest of the section, by induction
                assert forall|i: int|
                    0 <= i < qs.drop_first().len() implies wf_name(
                    (#[trigger] qs.drop_first()[i]).qname,
                ) && qs.drop_first()[i].qname.len() > 0 by {
                    assert(qs.drop_first()[i] == qs[i + 1]);
                }
                assert((b + out0).len() + questions_wire(qs.drop_first()).len() <= 0x4000);
                lemma_questions_compress_roundtrip(m1, qs.drop_first(), b + out0);
                assert((b + out0) + rest_r.0 =~= b2);
                assert((b + out0).len() as int == base + out0.len());
                match spec_parse_cquestions(b2, base + out0.len(), qs.drop_first().len()) {
                    Ok((qs2rest, e2)) => {
                        assert(spec_parse_cquestions(b2, base, qs.len()) == Ok::<
                            (Seq<QuestionView>, int),
                            ParseDataError,
                        >((seq![qv2] + qs2rest, e2))) by {
                            assert((qs.len() - 1) as nat == qs.drop_first().len());
                        }
                        assert forall|i: int| 0 <= i < qs.len() implies lower_texts(
                            (#[trigger] (seq![qv2] + qs2rest)[i]).qname,
                        ) == lower_texts(qs[i].qname) && (seq![qv2] + qs2rest)[i].qtype
                            == qs[i].qtype && (seq![qv2] + qs2rest)[i].qclass == qs[i].qclass by {
                            if i == 0 {
                            } else {
                                assert((seq![qv2] + qs2rest)[i] == qs2rest[i - 1]);
                                assert(qs.drop_first()[i - 1] == qs[i]);
                            }
                        }
                    },
                    Err(_) => {
                        assert(false);
                    },
                }
            },
            Err(_) => {
                assert(false);
            },
        }
    }
}

} // verus!

