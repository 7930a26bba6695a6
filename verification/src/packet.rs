//! The message decoder: the 12-byte header, then the four record sections,
//! each driven by its header count.

use vstd::prelude::*;
use vstd::slice::slice_to_vec;

use crate::error::DnsError;
use crate::helpers::read_be_u16;
use crate::record::{
    answer_at, be16_at, buffer_fits, record_at, rdlength_at, DnsAdditional, DnsAnswer,
    DnsAuthority, DnsQuestion,
};

verus! {

/// The fixed header: id, flag bytes and four counts.
pub const DNS_HEADER_LENGTH: usize = 12;

/// The kind of query a message carries, with reserved codes kept open.
#[derive(Clone, Copy, Debug, PartialEq, Eq, Structural)]
pub enum OpCode {
    Query,
    IQuery,
    Status,
    Reserved(u8),
}

/// The opcode a 4-bit code stands for.
pub open spec fn opcode_from_code(code: u8) -> OpCode {
    if code == 0 {
        OpCode::Query
    } else if code == 1 {
        OpCode::IQuery
    } else if code == 2 {
        OpCode::Status
    } else {
        OpCode::Reserved(code)
    }
}

impl From<u8> for OpCode {
    fn from(code: u8) -> (r: OpCode) {
        match code {
            0 => OpCode::Query,
            1 => OpCode::IQuery,
            2 => OpCode::Status,
            _ => OpCode::Reserved(code),
        }
    }
}

impl vstd::std_specs::convert::FromSpecImpl<u8> for OpCode {
    open spec fn obeys_from_spec() -> bool {
        true
    }

    open spec fn from_spec(code: u8) -> OpCode {
        opcode_from_code(code)
    }
}

/// The numeric code an opcode stands for.
pub open spec fn opcode_to_code(opcode: OpCode) -> u8 {
    match opcode {
        OpCode::Query => 0,
        OpCode::IQuery => 1,
        OpCode::Status => 2,
        OpCode::Reserved(code) => code,
    }
}

impl From<OpCode> for u8 {
    fn from(opcode: OpCode) -> (r: u8) {
        match opcode {
            OpCode::Query => 0,
            OpCode::IQuery => 1,
            OpCode::Status => 2,
            OpCode::Reserved(code) => code,
        }
    }
}

impl vstd::std_specs::convert::FromSpecImpl<OpCode> for u8 {
    open spec fn obeys_from_spec() -> bool {
        true
    }

    open spec fn from_spec(opcode: OpCode) -> u8 {
        opcode_to_code(opcode)
    }
}

/// The response code of a message, with reserved codes kept open.
#[derive(Clone, Copy, Debug, PartialEq, Eq, Structural)]
pub enum RCode {
    NoError,
    FormatError,
    ServerFailure,
    NameError,
    NotImplemented,
    Refused,
    Reserved(u8),
}

/// The response code a 4-bit code stands for.
pub open spec fn rcode_from_code(code: u8) -> RCode {
    if code == 0 {
        RCode::NoError
    } else if code == 1 {
        RCode::FormatError
    } else if code == 2 {
        RCode::ServerFailure
    } else if code == 3 {
        RCode::NameError
    } else if code == 4 {
        RCode::NotImplemented
    } else if code == 5 {
        RCode::Refused
    } else {
        RCode::Reserved(code)
    }
}

impl From<u8> for RCode {
    fn from(code: u8) -> (r: RCode) {
        match code {
            0 => RCode::NoError,
            1 => RCode::FormatError,
            2 => RCode::ServerFailure,
            3 => RCode::NameError,
            4 => RCode::NotImplemented,
            5 => RCode::Refused,
            _ => RCode::Reserved(code),
        }
    }
}

impl vstd::std_specs::convert::FromSpecImpl<u8> for RCode {
    open spec fn obeys_from_spec() -> bool {
        true
    }

    open spec fn from_spec(code: u8) -> RCode {
        rcode_from_code(code)
    }
}

/// The numeric code a response code stands for.
pub open spec fn rcode_to_code(rcode: RCode) -> u8 {
    match rcode {
        RCode::NoError => 0,
        RCode::FormatError => 1,
        RCode::ServerFailure => 2,
        RCode::NameError => 3,
        RCode::NotImplemented => 4,
        RCode::Refused => 5,
        RCode::Reserved(code) => code,
    }
}

impl From<RCode> for u8 {
    fn from(rcode: RCode) -> (r: u8) {
        match rcode {
            RCode::NoError => 0,
            RCode::FormatError => 1,
            RCode::ServerFailure => 2,
            RCode::NameError => 3,
            RCode::NotImplemented => 4,
            RCode::Refused => 5,
            RCode::Reserved(code) => code,
        }
    }
}

impl vstd::std_specs::convert::FromSpecImpl<RCode> for u8 {
    open spec fn obeys_from_spec() -> bool {
        true
    }

    open spec fn from_spec(rcode: RCode) -> u8 {
        rcode_to_code(rcode)
    }
}

/// The identification field of the message.
pub open spec fn id_at(raw: Seq<u8>) -> u16 {
    be16_at(raw, 0)
}

/// The query/response bit of the message.
pub open spec fn qr_at(raw: Seq<u8>) -> u8 {
    (raw[2] & 0b10000000) >> 7
}

/// The opcode field of the message.
pub open spec fn opcode_at(raw: Seq<u8>) -> OpCode {
    opcode_from_code((raw[2] & 0b01111000) >> 3)
}

/// The authoritative-answer bit of the message.
pub open spec fn aa_at(raw: Seq<u8>) -> u8 {
    (raw[2] & 0b00000100) >> 2
}

/// The truncation bit of the message.
pub open spec fn tc_at(raw: Seq<u8>) -> u8 {
    (raw[2] & 0b00000010) >> 1
}

/// The recursion-desired bit of the message.
pub open spec fn rd_at(raw: Seq<u8>) -> u8 {
    raw[2] & 0b00000001
}

/// The recursion-available bit of the message.
pub open spec fn ra_at(raw: Seq<u8>) -> u8 {
    (raw[3] & 0b10000000) >> 7
}

/// The reserved bits of the message, exposed raw.
pub open spec fn z_at(raw: Seq<u8>) -> u8 {
    (raw[3] & 0b01110000) >> 4
}

/// The response code field of the message.
pub open spec fn rcode_at(raw: Seq<u8>) -> RCode {
    rcode_from_code(raw[3] & 0b00001111)
}

/// The number of questions the header announces.
pub open spec fn qdcount_at(raw: Seq<u8>) -> u16 {
    be16_at(raw, 4)
}

/// The number of answers the header announces.
pub open spec fn ancount_at(raw: Seq<u8>) -> u16 {
    be16_at(raw, 6)
}

/// The number of authority records the header announces.
pub open spec fn nscount_at(raw: Seq<u8>) -> u16 {
    be16_at(raw, 8)
}

/// The number of additional records the header announces.
pub open spec fn arcount_at(raw: Seq<u8>) -> u16 {
    be16_at(raw, 10)
}

/// Where the `n` questions starting at `offset` lie: each question's label
/// offsets and next-field offset, and the offset after the section.
pub open spec fn questions_from(raw: Seq<u8>, offset: int, n: nat) -> Result<
    (Seq<(Seq<int>, int)>, int),
    DnsError,
>
    decreases n,
{
    if n == 0 {
        Ok((Seq::empty(), offset))
    } else {
        match record_at(raw, offset) {
            Ok(p) => match questions_from(raw, p.1 + 4, (n - 1) as nat) {
                Ok(rest) => Ok((seq![p] + rest.0, rest.1)),
                Err(e) => Err(e),
            },
            Err(e) => Err(e),
        }
    }
}

/// Where the `n` full resource records starting at `offset` lie, and the
/// offset after the section: each record advances the offset by its name as
/// encoded there, ten fixed bytes, and its payload length.
pub open spec fn answers_from(raw: Seq<u8>, offset: int, n: nat) -> Result<
    (Seq<(Seq<int>, int)>, int),
    DnsError,
>
    decreases n,
{
    if n == 0 {
        Ok((Seq::empty(), offset))
    } else {
        match answer_at(raw, offset) {
            Ok(p) => match answers_from(raw, p.1 + 10 + rdlength_at(raw, p.1), (n - 1) as nat) {
                Ok(rest) => Ok((seq![p] + rest.0, rest.1)),
                Err(e) => Err(e),
            },
            Err(e) => Err(e),
        }
    }
}

/// Where all the records of the message lie, section by section: the
/// questions, answers, authorities and additionals the header announces,
/// parsed back to back from the end of the header.  Any failure is the
/// whole message's failure.
pub open spec fn packet_at(raw: Seq<u8>) -> Result<
    (Seq<(Seq<int>, int)>, Seq<(Seq<int>, int)>, Seq<(Seq<int>, int)>, Seq<(Seq<int>, int)>),
    DnsError,
> {
    if raw.len() < DNS_HEADER_LENGTH {
        Err(DnsError::PacketLength)
    } else {
        match questions_from(raw, DNS_HEADER_LENGTH as int, qdcount_at(raw) as nat) {
            Err(e) => Err(e),
            Ok(q) => match answers_from(raw, q.1, ancount_at(raw) as nat) {
                Err(e) => Err(e),
                Ok(an) => match answers_from(raw, an.1, nscount_at(raw) as nat) {
                    Err(e) => Err(e),
                    Ok(ns) => match answers_from(raw, ns.1, arcount_at(raw) as nat) {
                        Err(e) => Err(e),
                        Ok(ar) => Ok((q.0, an.0, ns.0, ar.0)),
                    },
                },
            },
        }
    }
}

/// The whereabouts of a sequence of parsed questions.
pub open spec fn question_views(qs: Seq<DnsQuestion>) -> Seq<(Seq<int>, int)> {
    qs.map_values(|q: DnsQuestion| (q.spec_labels(), q.spec_next()))
}

/// The whereabouts of a sequence of parsed resource records.
pub open spec fn answer_views(ans: Seq<DnsAnswer>) -> Seq<(Seq<int>, int)> {
    ans.map_values(|a: DnsAnswer| (a.spec_labels(), a.spec_next()))
}

/// Parses the `n` questions at `start`, returning them with the offset
/// after the last one.
fn parse_question_section(raw: &[u8], start: usize, n: u16) -> (r: Result<
    (Vec<DnsQuestion>, usize),
    DnsError,
>)
    requires
        start <= raw@.len(),
        buffer_fits(raw@),
    ensures
        match r {
            Ok(p) => {
                &&& questions_from(raw@, start as int, n as nat) == Ok::<_, DnsError>(
                    (question_views(p.0@), p.1 as int),
                )
                &&& forall|i: int| 0 <= i < p.0@.len() ==> (#[trigger] p.0@[i]).wf(raw@)
                &&& p.0@.len() == n
                &&& p.1 <= raw@.len()
            },
            Err(e) => questions_from(raw@, start as int, n as nat) == Err::<
                (Seq<(Seq<int>, int)>, int),
                _,
            >(e),
        },
{
    let mut questions: Vec<DnsQuestion> = Vec::new();
    let mut offset = start;
    let mut k: u16 = 0;
    proof {
        assert(question_views(questions@) =~= Seq::<(Seq<int>, int)>::empty());
        if questions_from(raw@, start as int, n as nat) is Ok {
            let v = questions_from(raw@, start as int, n as nat)->Ok_0;
            assert(question_views(questions@) + v.0 =~= v.0);
        }
    }
    while k < n
        invariant
            buffer_fits(raw@),
            0 <= k <= n,
            questions@.len() == k,
            offset <= raw@.len(),
            forall|i: int| 0 <= i < questions@.len() ==> (#[trigger] questions@[i]).wf(raw@),
            match questions_from(raw@, offset as int, (n - k) as nat) {
                Ok(rest) => questions_from(raw@, start as int, n as nat) == Ok::<_, DnsError>(
                    (question_views(questions@) + rest.0, rest.1),
                ),
                Err(e) => questions_from(raw@, start as int, n as nat) == Err::<
                    (Seq<(Seq<int>, int)>, int),
                    _,
                >(e),
            },
        decreases n - k,
    {
        let q = match DnsQuestion::parse(raw, offset) {
            Ok(q) => q,
            Err(e) => return Err(e),
        };
        let length = q.get_length();
        let ghost before = questions@;
        questions.push(q);
        proof {
            assert(question_views(questions@) =~= question_views(before) + seq![
                (q.spec_labels(), q.spec_next()),
            ]);
            let rec = questions_from(raw@, q.spec_next() + 4, (n - k - 1) as nat);
            if rec is Ok {
                assert(question_views(before) + (seq![(q.spec_labels(), q.spec_next())]
                    + rec->Ok_0.0) =~= question_views(questions@) + rec->Ok_0.0);
            }
        }
        offset = offset + length;
        k = k + 1;
    }
    proof {
        assert(question_views(questions@) + Seq::<(Seq<int>, int)>::empty() =~= question_views(
            questions@,
        ));
    }
    Ok((questions, offset))
}

/// Parses the `n` full resource records at `start`, returning them with
/// the offset after the last one.  The offset a record's announced payload
/// length yields may point past the buffer; the next record's parse then
/// fails, but a trailing record may announce more payload than the buffer
/// holds without aborting the sections already read.
fn parse_answer_section(raw: &[u8], start: usize, n: u16) -> (r: Result<
    (Vec<DnsAnswer>, usize),
    DnsError,
>)
    requires
        start as int <= raw@.len() + 0x10000,
        buffer_fits(raw@),
    ensures
        match r {
            Ok(p) => {
                &&& answers_from(raw@, start as int, n as nat) == Ok::<_, DnsError>(
                    (answer_views(p.0@), p.1 as int),
                )
                &&& forall|i: int| 0 <= i < p.0@.len() ==> (#[trigger] p.0@[i]).wf(raw@)
                &&& p.0@.len() == n
                &&& p.1 as int <= raw@.len() + 0x10000
            },
            Err(e) => answers_from(raw@, start as int, n as nat) == Err::<
                (Seq<(Seq<int>, int)>, int),
                _,
            >(e),
        },
{
    let mut answers: Vec<DnsAnswer> = Vec::new();
    let mut offset = start;
    let mut k: u16 = 0;
    proof {
        assert(answer_views(answers@) =~= Seq::<(Seq<int>, int)>::empty());
        if answers_from(raw@, start as int, n as nat) is Ok {
            let v = answers_from(raw@, start as int, n as nat)->Ok_0;
            assert(answer_views(answers@) + v.0 =~= v.0);
        }
    }
    while k < n
        invariant
            buffer_fits(raw@),
            0 <= k <= n,
            answers@.len() == k,
            offset as int <= raw@.len() + 0x10000,
            forall|i: int| 0 <= i < answers@.len() ==> (#[trigger] answers@[i]).wf(raw@),
            match answers_from(raw@, offset as int, (n - k) as nat) {
                Ok(rest) => answers_from(raw@, start as int, n as nat) == Ok::<_, DnsError>(
                    (answer_views(answers@) + rest.0, rest.1),
                ),
                Err(e) => answers_from(raw@, start as int, n as nat) == Err::<
                    (Seq<(Seq<int>, int)>, int),
                    _,
                >(e),
            },
        decreases n - k,
    {
        let a = match DnsAnswer::parse(raw, offset) {
            Ok(a) => a,
            Err(e) => return Err(e),
        };
        let length = a.get_length(raw);
        let ghost before = answers@;
        answers.push(a);
        proof {
            assert(answer_views(answers@) =~= answer_views(before) + seq![
                (a.spec_labels(), a.spec_next()),
            ]);
            let rec = answers_from(
                raw@,
                a.spec_next() + 10 + rdlength_at(raw@, a.spec_next()),
                (n - k - 1) as nat,
            );
            if rec is Ok {
                assert(answer_views(before) + (seq![(a.spec_labels(), a.spec_next())]
                    + rec->Ok_0.0) =~= answer_views(answers@) + rec->Ok_0.0);
            }
        }
        offset = offset + length;
        k = k + 1;
    }
    proof {
        assert(answer_views(answers@) + Seq::<(Seq<int>, int)>::empty() =~= answer_views(
            answers@,
        ));
    }
    Ok((answers, offset))
}

/// A decoded message: its buffer and the four record sections the header
/// announced, parsed once and read on demand.
pub struct DnsPacket {
    raw: Vec<u8>,
    // dns questions inside the packet
    questions: Vec<DnsQuestion>,
    // dns answers inside the packet
    answers: Vec<DnsAnswer>,
    // dns authority resource records inside the packet
    authorities: Vec<DnsAuthority>,
    // dns additional resource records inside the packet
    additionals: Vec<DnsAdditional>,
}

impl DnsPacket {
    /// The message bytes the packet was decoded from.
    pub closed spec fn spec_raw(self) -> Seq<u8> {
        self.raw@
    }

    /// The decoded questions.
    pub closed spec fn spec_questions(self) -> Seq<DnsQuestion> {
        self.questions@
    }

    /// The decoded answers.
    pub closed spec fn spec_answers(self) -> Seq<DnsAnswer> {
        self.answers@
    }

    /// The decoded authority records.
    pub closed spec fn spec_authorities(self) -> Seq<DnsAuthority> {
        self.authorities@
    }

    /// The decoded additional records.
    pub closed spec fn spec_additionals(self) -> Seq<DnsAdditional> {
        self.additionals@
    }

    /// A packet as `parse` hands it out: the header fits the buffer and
    /// every stored record is well-formed against it.
    pub open spec fn wf(self) -> bool {
        &&& self.spec_raw().len() >= DNS_HEADER_LENGTH
        &&& buffer_fits(self.spec_raw())
        &&& forall|i: int|
            0 <= i < self.spec_questions().len() ==> (#[trigger] self.spec_questions()[i]).wf(
                self.spec_raw(),
            )
        &&& forall|i: int|
            0 <= i < self.spec_answers().len() ==> (#[trigger] self.spec_answers()[i]).wf(
                self.spec_raw(),
            )
        &&& forall|i: int|
            0 <= i < self.spec_authorities().len() ==> (#[trigger] self.spec_authorities()[i]).wf(
                self.spec_raw(),
            )
        &&& forall|i: int|
            0 <= i < self.spec_additionals().len() ==> (#[trigger] self.spec_additionals()[i]).wf(
                self.spec_raw(),
            )
    }

    /// Decodes a whole message: checks the header, then parses exactly the
    /// announced number of entries of each section.  Any entry failure is
    /// the whole decode's failure: no partial message comes back.
    pub fn parse(raw: &[u8]) -> (r: Result<DnsPacket, DnsError>)
        requires
            buffer_fits(raw@),
        ensures
            match r {
                Ok(p) => {
                    &&& p.wf()
                    &&& p.spec_raw() == raw@
                    &&& packet_at(raw@) == Ok::<_, DnsError>(
                        (
                            question_views(p.spec_questions()),
                            answer_views(p.spec_answers()),
                            answer_views(p.spec_authorities()),
                            answer_views(p.spec_additionals()),
                        ),
                    )
                    &&& p.spec_questions().len() == qdcount_at(raw@)
                    &&& p.spec_answers().len() == ancount_at(raw@)
                    &&& p.spec_authorities().len() == nscount_at(raw@)
                    &&& p.spec_additionals().len() == arcount_at(raw@)
                },
                Err(e) => packet_at(raw@) == Err::<
                    (
                        Seq<(Seq<int>, int)>,
                        Seq<(Seq<int>, int)>,
                        Seq<(Seq<int>, int)>,
                        Seq<(Seq<int>, int)>,
                    ),
                    _,
                >(e),
            },
    {
        if raw.len() < DNS_HEADER_LENGTH {
            return Err(DnsError::PacketLength);
        }

        let mut packet = DnsPacket {
            raw: slice_to_vec(raw),
            questions: Vec::new(),
            answers: Vec::new(),
            authorities: Vec::new(),
            additionals: Vec::new(),
        };
        match packet.parse_records() {
            Ok(()) => Ok(packet),
            Err(e) => Err(e),
        }
    }

    /// Parses the four record sections the header announces, in order,
    /// each entry at the offset the previous entry's length yields.
    fn parse_records(&mut self) -> (r: Result<(), DnsError>)
        requires
            old(self).spec_raw().len() >= DNS_HEADER_LENGTH,
            buffer_fits(old(self).spec_raw()),
        ensures
            final(self).spec_raw() == old(self).spec_raw(),
            match r {
                Ok(()) => {
                    &&& final(self).wf()
                    &&& packet_at(old(self).spec_raw()) == Ok::<_, DnsError>(
                        (
                            question_views(final(self).spec_questions()),
                            answer_views(final(self).spec_answers()),
                            answer_views(final(self).spec_authorities()),
                            answer_views(final(self).spec_additionals()),
                        ),
                    )
                    &&& final(self).spec_questions().len() == qdcount_at(old(self).spec_raw())
                    &&& final(self).spec_answers().len() == ancount_at(old(self).spec_raw())
                    &&& final(self).spec_authorities().len() == nscount_at(old(self).spec_raw())
                    &&& final(self).spec_additionals().len() == arcount_at(old(self).spec_raw())
                },
                Err(e) => packet_at(old(self).spec_raw()) == Err::<
                    (
                        Seq<(Seq<int>, int)>,
                        Seq<(Seq<int>, int)>,
                        Seq<(Seq<int>, int)>,
                        Seq<(Seq<int>, int)>,
                    ),
                    _,
                >(e),
            },
    {
        // parse questions
        let n_questions = self.get_questions();
        let q = match parse_question_section(self.raw.as_slice(), DNS_HEADER_LENGTH, n_questions) {
            Ok(p) => p,
            Err(e) => return Err(e),
        };
        self.questions = q.0;

        // parse answers
        let n_answers = self.get_answers();
        let an = match parse_answer_section(self.raw.as_slice(), q.1, n_answers) {
            Ok(p) => p,
            Err(e) => return Err(e),
        };
        self.answers = an.0;

        // parse authorities
        let n_authorities = self.get_authorities();
        let ns = match parse_answer_section(self.raw.as_slice(), an.1, n_authorities) {
            Ok(p) => p,
            Err(e) => return Err(e),
        };
        self.authorities = ns.0;

        // parse additionals
        let n_additionals = self.get_additionals();
        let ar = match parse_answer_section(self.raw.as_slice(), ns.1, n_additionals) {
            Ok(p) => p,
            Err(e) => return Err(e),
        };
        self.additionals = ar.0;

        Ok(())
    }

    /// The identification field.
    pub fn get_id(&self) -> (r: u16)
        requires
            self.spec_raw().len() >= DNS_HEADER_LENGTH,
        ensures
            r == id_at(self.spec_raw()),
    {
        read_be_u16(&self.raw[0..2])
    }

    /// The query (0) / response (1) bit.
    pub fn get_qr(&self) -> (r: u8)
        requires
            self.spec_raw().len() >= DNS_HEADER_LENGTH,
        ensures
            r == qr_at(self.spec_raw()),
    {
        (self.raw[2] & 0b10000000) >> 7
    }

    /// The opcode field.
    pub fn get_opcode(&self) -> (r: OpCode)
        requires
            self.spec_raw().len() >= DNS_HEADER_LENGTH,
        ensures
            r == opcode_at(self.spec_raw()),
    {
        OpCode::from((self.raw[2] & 0b01111000) >> 3)
    }

    /// The authoritative-answer bit.
    pub fn get_aa(&self) -> (r: u8)
        requires
            self.spec_raw().len() >= DNS_HEADER_LENGTH,
        ensures
            r == aa_at(self.spec_raw()),
    {
        (self.raw[2] & 0b00000100) >> 2
    }

    /// The truncation bit.
    pub fn get_tc(&self) -> (r: u8)
        requires
            self.spec_raw().len() >= DNS_HEADER_LENGTH,
        ensures
            r == tc_at(self.spec_raw()),
    {
        (self.raw[2] & 0b00000010) >> 1
    }

    /// The recursion-desired bit.
    pub fn get_rd(&self) -> (r: u8)
        requires
            self.spec_raw().len() >= DNS_HEADER_LENGTH,
        ensures
            r == rd_at(self.spec_raw()),
    {
        self.raw[2] & 0b00000001
    }

    /// The recursion-available bit.
    pub fn get_ra(&self) -> (r: u8)
        requires
            self.spec_raw().len() >= DNS_HEADER_LENGTH,
        ensures
            r == ra_at(self.spec_raw()),
    {
        (self.raw[3] & 0b10000000) >> 7
    }

    /// The reserved bits, exposed raw.
    pub fn get_z(&self) -> (r: u8)
        requires
            self.spec_raw().len() >= DNS_HEADER_LENGTH,
        ensures
            r == z_at(self.spec_raw()),
    {
        (self.raw[3] & 0b01110000) >> 4
    }

    /// The response code field.
    pub fn get_rcode(&self) -> (r: RCode)
        requires
            self.spec_raw().len() >= DNS_HEADER_LENGTH,
        ensures
            r == rcode_at(self.spec_raw()),
    {
        RCode::from(self.raw[3] & 0b00001111)
    }

    /// The number of questions the header announces.
    pub fn get_questions(&self) -> (r: u16)
        requires
            self.spec_raw().len() >= DNS_HEADER_LENGTH,
        ensures
            r == qdcount_at(self.spec_raw()),
    {
        read_be_u16(&self.raw[4..6])
    }

    /// The number of answers the header announces.
    pub fn get_answers(&self) -> (r: u16)
        requires
            self.spec_raw().len() >= DNS_HEADER_LENGTH,
        ensures
            r == ancount_at(self.spec_raw()),
    {
        read_be_u16(&self.raw[6..8])
    }

    /// The number of authority records the header announces.
    pub fn get_authorities(&self) -> (r: u16)
        requires
            self.spec_raw().len() >= DNS_HEADER_LENGTH,
        ensures
            r == nscount_at(self.spec_raw()),
    {
        read_be_u16(&self.raw[8..10])
    }

    /// The number of additional records the header announces.
    pub fn get_additionals(&self) -> (r: u16)
        requires
            self.spec_raw().len() >= DNS_HEADER_LENGTH,
        ensures
            r == arcount_at(self.spec_raw()),
    {
        read_be_u16(&self.raw[10..12])
    }

    /// The nth decoded question, if the message has that many.
    pub fn get_question(&self, nth: usize) -> (r: Option<&DnsQuestion>)
        ensures
            match r {
                Some(q) => nth < self.spec_questions().len() && *q == self.spec_questions()[nth as int],
                None => nth >= self.spec_questions().len(),
            },
    {
        if nth >= self.questions.len() {
            return None;
        }
        Some(&self.questions[nth])
    }

    /// The nth decoded answer, if the message has that many.
    pub fn get_answer(&self, nth: usize) -> (r: Option<&DnsAnswer>)
        ensures
            match r {
                Some(a) => nth < self.spec_answers().len() && *a == self.spec_answers()[nth as int],
                None => nth >= self.spec_answers().len(),
            },
    {
        if nth >= self.answers.len() {
            return None;
        }
        Some(&self.answers[nth])
    }

    /// The nth decoded authority record, if the message has that many.
    pub fn get_authority(&self, nth: usize) -> (r: Option<&DnsAuthority>)
        ensures
            match r {
                Some(a) => nth < self.spec_authorities().len() && *a == self.spec_authorities()[nth as int],
                None => nth >= self.spec_authorities().len(),
            },
    {
        if nth >= self.authorities.len() {
            return None;
        }
        Some(&self.authorities[nth])
    }

    /// The nth decoded additional record, if the message has that many.
    pub fn get_additional(&self, nth: usize) -> (r: Option<&DnsAdditional>)
        ensures
            match r {
                Some(a) => nth < self.spec_additionals().len() && *a == self.spec_additionals()[nth as int],
                None => nth >= self.spec_additionals().len(),
            },
    {
        if nth >= self.additionals.len() {
            return None;
        }
        Some(&self.additionals[nth])
    }
}

} // verus!
