//! Record framing shared by questions and answers, and the typed decoding
//! of record payloads.

use vstd::prelude::*;
use vstd::slice::slice_to_vec;

use crate::characters::{char_strings, get_character_strings};
use crate::error::DnsError;
use crate::helpers::{be_uint, read_be_u128, read_be_u16, read_be_u32};
use crate::labels::{
    get_name, get_name_from_labels, idx_view, labels_at, lemma_parse_labels_bounds, name_at,
    name_from_indexes, parse_labels,
};

verus! {

/// A name, a type and a class, each at least one byte, two bytes and two
/// bytes: fewer remaining bytes cannot hold a question.
pub const DNS_MIN_QUESTION_LENGTH: usize = 5;

/// A minimal question plus the four ttl bytes and the two length bytes of a
/// full resource record.
pub const DNS_MIN_ANSWER_LENGTH: usize = 11;

/// True when the buffer leaves enough headroom below `usize::MAX` that
/// advancing an offset over one record (its name, ten fixed bytes and a
/// 16-bit payload length) cannot overflow.
pub open spec fn buffer_fits(raw: Seq<u8>) -> bool {
    raw.len() + 0x10010 <= usize::MAX
}

/// The 16-bit big-endian field at offset `i`.
pub open spec fn be16_at(raw: Seq<u8>, i: int) -> u16 {
    be_uint(raw.subrange(i, i + 2)) as u16
}

/// The 32-bit big-endian field at offset `i`.
pub open spec fn be32_at(raw: Seq<u8>, i: int) -> u32 {
    be_uint(raw.subrange(i, i + 4)) as u32
}

/// The record types of RFC 1035 plus AAAA and SRV, with an open fallback
/// for every other code.
#[derive(Clone, Copy, Debug, PartialEq, Eq, Structural)]
pub enum Type {
    A,
    Ns,
    Md,
    Mf,
    Cname,
    Soa,
    Mb,
    Mg,
    Mr,
    Null,
    Wks,
    Ptr,
    Hinfo,
    Minfo,
    Mx,
    Txt,
    Aaaa,
    Srv,
    Axfr,
    Mailb,
    Maila,
    All,
    Unknown(u16),
}

/// The type a 16-bit code stands for.
pub open spec fn type_from_code(code: u16) -> Type {
    if code == 1 {
        Type::A
    } else if code == 2 {
        Type::Ns
    } else if code == 3 {
        Type::Md
    } else if code == 4 {
        Type::Mf
    } else if code == 5 {
        Type::Cname
    } else if code == 6 {
        Type::Soa
    } else if code == 7 {
        Type::Mb
    } else if code == 8 {
        Type::Mg
    } else if code == 9 {
        Type::Mr
    } else if code == 10 {
        Type::Null
    } else if code == 11 {
        Type::Wks
    } else if code == 12 {
        Type::Ptr
    } else if code == 13 {
        Type::Hinfo
    } else if code == 14 {
        Type::Minfo
    } else if code == 15 {
        Type::Mx
    } else if code == 16 {
        Type::Txt
    } else if code == 28 {
        Type::Aaaa
    } else if code == 33 {
        Type::Srv
    } else if code == 252 {
        Type::Axfr
    } else if code == 253 {
        Type::Mailb
    } else if code == 254 {
        Type::Maila
    } else if code == 255 {
        Type::All
    } else {
        Type::Unknown(code)
    }
}

impl From<u16> for Type {
    fn from(code: u16) -> (r: Type) {
        match code {
            1 => Type::A,
            2 => Type::Ns,
            3 => Type::Md,
            4 => Type::Mf,
            5 => Type::Cname,
            6 => Type::Soa,
            7 => Type::Mb,
            8 => Type::Mg,
            9 => Type::Mr,
            10 => Type::Null,
            11 => Type::Wks,
            12 => Type::Ptr,
            13 => Type::Hinfo,
            14 => Type::Minfo,
            15 => Type::Mx,
            16 => Type::Txt,
            28 => Type::Aaaa,
            33 => Type::Srv,
            252 => Type::Axfr,
            253 => Type::Mailb,
            254 => Type::Maila,
            255 => Type::All,
            unknown => Type::Unknown(unknown),
        }
    }
}

impl vstd::std_specs::convert::FromSpecImpl<u16> for Type {
    open spec fn obeys_from_spec() -> bool {
        true
    }

    open spec fn from_spec(code: u16) -> Type {
        type_from_code(code)
    }
}

/// The record classes of RFC 1035, with an open fallback for every other
/// code.
#[derive(Clone, Copy, Debug, PartialEq, Eq, Structural)]
pub enum Class {
    In,
    Cs,
    Ch,
    Hs,
    Unknown(u16),
}

/// The class a 16-bit code stands for.
pub open spec fn class_from_code(code: u16) -> Class {
    if code == 1 {
        Class::In
    } else if code == 2 {
        Class::Cs
    } else if code == 3 {
        Class::Ch
    } else if code == 4 {
        Class::Hs
    } else {
        Class::Unknown(code)
    }
}

impl From<u16> for Class {
    fn from(code: u16) -> (r: Class) {
        match code {
            1 => Class::In,
            2 => Class::Cs,
            3 => Class::Ch,
            4 => Class::Hs,
            unknown => Class::Unknown(unknown),
        }
    }
}

impl vstd::std_specs::convert::FromSpecImpl<u16> for Class {
    open spec fn obeys_from_spec() -> bool {
        true
    }

    open spec fn from_spec(code: u16) -> Class {
        class_from_code(code)
    }
}

/// A decoded record payload.  Addresses are kept as the big-endian integer
/// value of their four or sixteen bytes.  A payload of an unrecognized type
/// or class is `Unknown`; one of a recognized type whose structure failed
/// to decode is `Invalid`, truncated to the buffer's bounds.
#[derive(Debug, PartialEq, Eq)]
pub enum Data {
    A(u32),
    Ns(String),
    Cname(String),
    Soa(String, String, u32, u32, u32, u32, u32),
    Ptr(String),
    Mx(u16, String),
    Txt(Vec<String>),
    Aaaa(u128),
    Srv(u16, u16, u16, String),
    Unknown(Vec<u8>),
    Invalid(Vec<u8>),
}

/// The mathematical value of a decoded payload.
pub enum DataModel {
    A(u32),
    Ns(Seq<char>),
    Cname(Seq<char>),
    Soa(Seq<char>, Seq<char>, u32, u32, u32, u32, u32),
    Ptr(Seq<char>),
    Mx(u16, Seq<char>),
    Txt(Seq<Seq<char>>),
    Aaaa(u128),
    Srv(u16, u16, u16, Seq<char>),
    Unknown(Seq<u8>),
    Invalid(Seq<u8>),
}

impl View for Data {
    type V = DataModel;

    open spec fn view(&self) -> DataModel {
        match self {
            Data::A(a) => DataModel::A(*a),
            Data::Ns(n) => DataModel::Ns(n@),
            Data::Cname(n) => DataModel::Cname(n@),
            Data::Soa(m, r, serial, refresh, retry, expire, minimum) => DataModel::Soa(
                m@,
                r@,
                *serial,
                *refresh,
                *retry,
                *expire,
                *minimum,
            ),
            Data::Ptr(n) => DataModel::Ptr(n@),
            Data::Mx(pref, n) => DataModel::Mx(*pref, n@),
            Data::Txt(texts) => DataModel::Txt(texts.deep_view()),
            Data::Aaaa(a) => DataModel::Aaaa(*a),
            Data::Srv(prio, weight, port, n) => DataModel::Srv(*prio, *weight, *port, n@),
            Data::Unknown(b) => DataModel::Unknown(b@),
            Data::Invalid(b) => DataModel::Invalid(b@),
        }
    }
}

/// The structural decode of a SOA payload: two names back to back, then
/// five 32-bit fields right after the second name.
pub open spec fn soa_spec(raw: Seq<u8>, offset: int, length: int) -> Result<DataModel, DnsError> {
    if length < 22 {
        Err(DnsError::DataLength)
    } else {
        match labels_at(raw, offset) {
            Err(e) => Err(e),
            Ok(m) => match labels_at(raw, m.1) {
                Err(e) => Err(e),
                Ok(r) => match name_from_indexes(raw, m.0) {
                    Err(e) => Err(e),
                    Ok(mname) => match name_from_indexes(raw, r.0) {
                        Err(e) => Err(e),
                        Ok(rname) => if r.1 + 20 > raw.len() {
                            Err(DnsError::DataLength)
                        } else {
                            Ok(
                                DataModel::Soa(
                                    mname,
                                    rname,
                                    be32_at(raw, r.1),
                                    be32_at(raw, r.1 + 4),
                                    be32_at(raw, r.1 + 8),
                                    be32_at(raw, r.1 + 12),
                                    be32_at(raw, r.1 + 16),
                                ),
                            )
                        },
                    },
                },
            },
        }
    }
}

/// The structural decode of a payload of `length` bytes at `offset`, for
/// the given type and class.  Only Internet-class payloads of the nine
/// decoded types are structured; everything else is the raw bytes.
pub open spec fn data_spec(
    raw: Seq<u8>,
    offset: int,
    length: int,
    typ: Type,
    class: Class,
) -> Result<DataModel, DnsError> {
    if offset + length > raw.len() {
        Err(DnsError::DataLength)
    } else if !(class is In) {
        Ok(DataModel::Unknown(raw.subrange(offset, offset + length)))
    } else {
        match typ {
            Type::A => if length != 4 {
                Err(DnsError::DataLength)
            } else {
                Ok(DataModel::A(be32_at(raw, offset)))
            },
            Type::Ns => match name_at(raw, offset) {
                Ok(n) => Ok(DataModel::Ns(n)),
                Err(e) => Err(e),
            },
            Type::Cname => match name_at(raw, offset) {
                Ok(n) => Ok(DataModel::Cname(n)),
                Err(e) => Err(e),
            },
            Type::Soa => soa_spec(raw, offset, length),
            Type::Ptr => match name_at(raw, offset) {
                Ok(n) => Ok(DataModel::Ptr(n)),
                Err(e) => Err(e),
            },
            Type::Mx => if length < 3 {
                Err(DnsError::DataLength)
            } else {
                match name_at(raw, offset + 2) {
                    Ok(n) => Ok(DataModel::Mx(be16_at(raw, offset), n)),
                    Err(e) => Err(e),
                }
            },
            Type::Txt => match char_strings(raw.subrange(offset, offset + length)) {
                Ok(texts) => Ok(DataModel::Txt(texts)),
                Err(e) => Err(e),
            },
            Type::Aaaa => if length != 16 {
                Err(DnsError::DataLength)
            } else {
                Ok(DataModel::Aaaa(be_uint(raw.subrange(offset, offset + 16)) as u128))
            },
            Type::Srv => if length < 7 {
                Err(DnsError::DataLength)
            } else {
                match name_at(raw, offset + 6) {
                    Ok(n) => Ok(
                        DataModel::Srv(
                            be16_at(raw, offset),
                            be16_at(raw, offset + 2),
                            be16_at(raw, offset + 4),
                            n,
                        ),
                    ),
                    Err(e) => Err(e),
                }
            },
            _ => Ok(DataModel::Unknown(raw.subrange(offset, offset + length))),
        }
    }
}

/// The payload a reader always gets: the structural decode where it
/// succeeds, and otherwise the raw bytes truncated to the buffer's bounds.
pub open spec fn data_at(raw: Seq<u8>, offset: int, length: int, typ: Type, class: Class)
    -> DataModel {
    match data_spec(raw, offset, length, typ, class) {
        Ok(d) => d,
        Err(_) => DataModel::Invalid(
            raw.subrange(
                offset,
                if offset + length > raw.len() {
                    raw.len() as int
                } else {
                    offset + length
                },
            ),
        ),
    }
}

impl Data {
    /// Decodes a payload structurally, or reports why it cannot be.
    #[verifier::rlimit(100)]
    #[verifier::spinoff_prover]
    fn parse(raw: &[u8], offset: usize, length: usize, typ: Type, class: Class) -> (r: Result<
        Data,
        DnsError,
    >)
        requires
            offset <= raw@.len(),
            length <= 0xffff,
        ensures
            match r {
                Ok(d) => data_spec(raw@, offset as int, length as int, typ, class) == Ok::<
                    _,
                    DnsError,
                >(d@),
                Err(e) => data_spec(raw@, offset as int, length as int, typ, class) == Err::<
                    DataModel,
                    _,
                >(e),
            },
    {
        let i = offset;

        // check offset and data length
        if length > raw.len() - i {
            return Err(DnsError::DataLength);
        }

        // only handle class "internet" records
        match class {
            Class::In => {}
            _ => {
                return Ok(Data::Unknown(slice_to_vec(&raw[i..i + length])));
            },
        }

        // parse the data based on its type
        match typ {
            Type::A => {
                if length != 4 {
                    return Err(DnsError::DataLength);
                }
                Ok(Data::A(read_be_u32(&raw[i..i + 4])))
            }
            Type::Ns => {
                match get_name(raw, i) {
                    Ok(n) => Ok(Data::Ns(n)),
                    Err(e) => Err(e),
                }
            }
            Type::Cname => {
                match get_name(raw, i) {
                    Ok(n) => Ok(Data::Cname(n)),
                    Err(e) => Err(e),
                }
            }
            Type::Soa => Data::parse_soa(raw, i, length),
            Type::Ptr => {
                match get_name(raw, i) {
                    Ok(n) => Ok(Data::Ptr(n)),
                    Err(e) => Err(e),
                }
            }
            Type::Mx => {
                // minimum mx data length: one 16-bit field and one name
                if length < 3 {
                    return Err(DnsError::DataLength);
                }
                let preference = read_be_u16(&raw[i..i + 2]);
                match get_name(raw, i + 2) {
                    Ok(n) => Ok(Data::Mx(preference, n)),
                    Err(e) => Err(e),
                }
            }
            Type::Txt => {
                match get_character_strings(&raw[i..i + length]) {
                    Ok(texts) => Ok(Data::Txt(texts)),
                    Err(e) => Err(e),
                }
            }
            Type::Aaaa => {
                if length != 16 {
                    return Err(DnsError::DataLength);
                }
                Ok(Data::Aaaa(read_be_u128(&raw[i..i + 16])))
            }
            Type::Srv => {
                // minimum srv data length: three 16-bit fields and one name
                if length < 7 {
                    return Err(DnsError::DataLength);
                }
                let priority = read_be_u16(&raw[i..i + 2]);
                let weight = read_be_u16(&raw[i + 2..i + 4]);
                let port = read_be_u16(&raw[i + 4..i + 6]);
                match get_name(raw, i + 6) {
                    Ok(target) => Ok(Data::Srv(priority, weight, port, target)),
                    Err(e) => Err(e),
                }
            }
            _ => Ok(Data::Unknown(slice_to_vec(&raw[i..i + length]))),
        }
    }

    /// Decodes a SOA payload: two names, then five 32-bit fields.
    fn parse_soa(raw: &[u8], offset: usize, length: usize) -> (r: Result<Data, DnsError>)
        requires
            offset <= raw@.len(),
        ensures
            match r {
                Ok(d) => soa_spec(raw@, offset as int, length as int) == Ok::<_, DnsError>(d@),
                Err(e) => soa_spec(raw@, offset as int, length as int) == Err::<DataModel, _>(e),
            },
    {
        // minimum soa data length: two names and five 32-bit fields
        if length < 22 {
            return Err(DnsError::DataLength);
        }
        let m = match parse_labels(raw, offset) {
            Ok(p) => p,
            Err(e) => return Err(e),
        };
        let mname_labels = m.0;
        proof {
            lemma_parse_labels_bounds(raw@, offset as int, mname_labels@, m.1 as int);
        }
        let r = match parse_labels(raw, m.1) {
            Ok(p) => p,
            Err(e) => return Err(e),
        };
        let rname_labels = r.0;
        proof {
            lemma_parse_labels_bounds(raw@, m.1 as int, rname_labels@, r.1 as int);
        }
        let mname = match get_name_from_labels(raw, &mname_labels) {
            Ok(n) => n,
            Err(e) => return Err(e),
        };
        let rname = match get_name_from_labels(raw, &rname_labels) {
            Ok(n) => n,
            Err(e) => return Err(e),
        };
        let j = r.1;
        if 20 > raw.len() - j {
            return Err(DnsError::DataLength);
        }
        let serial = read_be_u32(&raw[j..j + 4]);
        let refresh = read_be_u32(&raw[j + 4..j + 8]);
        let retry = read_be_u32(&raw[j + 8..j + 12]);
        let expire = read_be_u32(&raw[j + 12..j + 16]);
        let minimum = read_be_u32(&raw[j + 16..j + 20]);
        Ok(Data::Soa(mname, rname, serial, refresh, retry, expire, minimum))
    }

    /// Decodes a payload, downgrading every structural failure to the raw
    /// bytes truncated to the buffer's bounds: a garbled payload never
    /// aborts the record around it.
    fn get(raw: &[u8], offset: usize, length: usize, typ: Type, class: Class) -> (r: Data)
        requires
            offset <= raw@.len(),
            length <= 0xffff,
        ensures
            r@ == data_at(raw@, offset as int, length as int, typ, class),
    {
        match Data::parse(raw, offset, length, typ, class) {
            Ok(data) => data,
            Err(_) => {
                let end = if length < raw.len() - offset {
                    offset + length
                } else {
                    raw.len()
                };
                Data::Invalid(slice_to_vec(&raw[offset..end]))
            },
        }
    }
}

/// A payload of a recognized Internet-class type that is shorter than the
/// type's minimum never aborts anything: its structural decode fails with
/// `DataLength`, and the reader gets `Invalid` with the raw payload bytes.
pub proof fn lemma_short_data_invalid(raw: Seq<u8>, offset: int, length: int, typ: Type)
    requires
        0 <= offset,
        0 <= length,
        offset + length <= raw.len(),
        match typ {
            Type::A => length != 4,
            Type::Soa => length < 22,
            Type::Mx => length < 3,
            Type::Aaaa => length != 16,
            Type::Srv => length < 7,
            _ => false,
        },
    ensures
        data_spec(raw, offset, length, typ, Class::In) == Err::<DataModel, _>(
            DnsError::DataLength,
        ),
        data_at(raw, offset, length, typ, Class::In) == DataModel::Invalid(
            raw.subrange(offset, offset + length),
        ),
{
}

/// Where the pieces of the record at `offset` lie: its label offsets and
/// the offset of its fixed fields, provided at least a minimal question
/// fits there and the type and class fields lie inside the buffer.
pub open spec fn record_at(raw: Seq<u8>, offset: int) -> Result<(Seq<int>, int), DnsError> {
    if offset > raw.len() || raw.len() - offset < DNS_MIN_QUESTION_LENGTH {
        Err(DnsError::RecordLength)
    } else {
        match labels_at(raw, offset) {
            Ok(p) => if p.1 + 4 <= raw.len() {
                Ok(p)
            } else {
                Err(DnsError::RecordLength)
            },
            Err(e) => Err(e),
        }
    }
}

/// Where the pieces of the full resource record at `offset` lie, provided
/// a minimal record fits there and all six fixed bytes of ttl and payload
/// length lie inside the buffer.
pub open spec fn answer_at(raw: Seq<u8>, offset: int) -> Result<(Seq<int>, int), DnsError> {
    if offset > raw.len() || raw.len() - offset < DNS_MIN_ANSWER_LENGTH {
        Err(DnsError::RecordLength)
    } else {
        match record_at(raw, offset) {
            Ok(p) => if p.1 + 10 <= raw.len() {
                Ok(p)
            } else {
                Err(DnsError::RecordLength)
            },
            Err(e) => Err(e),
        }
    }
}

/// The type code of a record whose fixed fields start at `next`.
pub open spec fn type_at(raw: Seq<u8>, next: int) -> Type {
    type_from_code(be16_at(raw, next))
}

/// The class code of a record whose fixed fields start at `next`.
pub open spec fn class_at(raw: Seq<u8>, next: int) -> Class {
    class_from_code(be16_at(raw, next + 2))
}

/// The ttl of a record whose fixed fields start at `next`.
pub open spec fn ttl_at(raw: Seq<u8>, next: int) -> u32 {
    be32_at(raw, next + 4)
}

/// The payload length of a record whose fixed fields start at `next`.
pub open spec fn rdlength_at(raw: Seq<u8>, next: int) -> u16 {
    be16_at(raw, next + 8)
}

/// The common shape of questions and resource records: a name, then fixed
/// fields.  A record holds only offsets into the one message buffer; each
/// reader takes the buffer again.
pub struct DnsRecord {
    // offset of the record inside the message
    offset: usize,
    // offsets of the name's labels within the message
    label_indexes: Vec<usize>,
    // start of the fields after the name:
    // * type (2 bytes): next_index
    // * class (2 bytes): next_index + 2
    // * ttl (4 bytes): next_index + 4
    // * data length (2 bytes): next_index + 8
    // * data (data length bytes): next_index + 10
    next_index: usize,
}

impl DnsRecord {
    /// The offset this record was parsed at.
    pub closed spec fn spec_offset(self) -> int {
        self.offset as int
    }

    /// The offsets of the record's labels.
    pub closed spec fn spec_labels(self) -> Seq<int> {
        idx_view(self.label_indexes@)
    }

    /// The offset of the record's fixed fields.
    pub closed spec fn spec_next(self) -> int {
        self.next_index as int
    }

    /// A record as `parse` hands it out: its labels and next-field offset
    /// are those of the name at its offset, and its type and class fields
    /// lie inside the buffer.
    pub open spec fn wf(self, raw: Seq<u8>) -> bool {
        &&& labels_at(raw, self.spec_offset()) == Ok::<_, DnsError>(
            (self.spec_labels(), self.spec_next()),
        )
        &&& self.spec_offset() < self.spec_next()
        &&& self.spec_next() + 4 <= raw.len()
    }

    /// A full resource record: additionally its ttl and payload length
    /// fields lie inside the buffer.
    pub open spec fn wf_full(self, raw: Seq<u8>) -> bool {
        &&& self.wf(raw)
        &&& self.spec_next() + 10 <= raw.len()
    }

    /// Frames the record at `offset`: resolves its labels and locates its
    /// fixed fields.
    pub fn parse(raw: &[u8], offset: usize) -> (r: Result<DnsRecord, DnsError>)
        ensures
            match r {
                Ok(rec) => record_at(raw@, offset as int) == Ok::<_, DnsError>(
                    (rec.spec_labels(), rec.spec_next()),
                ) && rec.spec_offset() == offset && rec.wf(raw@),
                Err(e) => record_at(raw@, offset as int) == Err::<(Seq<int>, int), _>(e),
            },
    {
        // check offset and minimum size
        if offset > raw.len() || raw.len() - offset < DNS_MIN_QUESTION_LENGTH {
            return Err(DnsError::RecordLength);
        }

        // parse the labels of the record's name
        let p = match parse_labels(raw, offset) {
            Ok(p) => p,
            Err(e) => return Err(e),
        };
        let label_indexes = p.0;
        let next_index = p.1;
        proof {
            lemma_parse_labels_bounds(raw@, offset as int, label_indexes@, next_index as int);
        }

        // the type and class fields must lie inside the buffer
        if raw.len() - next_index < 4 {
            return Err(DnsError::RecordLength);
        }

        Ok(DnsRecord { offset, label_indexes, next_index })
    }

    /// The number of bytes the record's name takes as encoded here.
    pub fn get_labels_length(&self) -> (r: usize)
        requires
            self.spec_offset() <= self.spec_next(),
        ensures
            r == self.spec_next() - self.spec_offset(),
    {
        self.next_index - self.offset
    }

    /// The record's name as text, or a placeholder where a label is not
    /// UTF-8: reading a name never fails.
    pub fn get_name(&self, raw: &[u8]) -> (r: String)
        requires
            self.wf(raw@),
        ensures
            match name_from_indexes(raw@, self.spec_labels()) {
                Ok(n) => r@ == n,
                Err(_) => r@ == "<error>"@,
            },
    {
        proof {
            lemma_parse_labels_bounds(
                raw@,
                self.spec_offset(),
                self.label_indexes@,
                self.spec_next(),
            );
        }
        match get_name_from_labels(raw, &self.label_indexes) {
            Ok(name) => name,
            Err(_) => "<error>".to_owned(),
        }
    }

    /// The record's type field.
    pub fn get_type(&self, raw: &[u8]) -> (r: Type)
        requires
            self.wf(raw@),
        ensures
            r == type_at(raw@, self.spec_next()),
    {
        let n = raw.len();
        let i = self.next_index;
        proof {
            assert(i + 2 <= n);
        }
        Type::from(read_be_u16(&raw[i..i + 2]))
    }

    /// The record's class field.
    pub fn get_class(&self, raw: &[u8]) -> (r: Class)
        requires
            self.wf(raw@),
        ensures
            r == class_at(raw@, self.spec_next()),
    {
        let n = raw.len();
        let i = self.next_index + 2;
        proof {
            assert(i + 2 <= n);
        }
        Class::from(read_be_u16(&raw[i..i + 2]))
    }

    /// The record's ttl field; only a full resource record has one.
    pub fn get_ttl(&self, raw: &[u8]) -> (r: u32)
        requires
            self.wf_full(raw@),
        ensures
            r == ttl_at(raw@, self.spec_next()),
    {
        let n = raw.len();
        let i = self.next_index + 4;
        proof {
            assert(i + 4 <= n);
        }
        read_be_u32(&raw[i..i + 4])
    }

    /// The record's payload length field; only a full resource record has
    /// one.
    pub fn get_data_length(&self, raw: &[u8]) -> (r: u16)
        requires
            self.wf_full(raw@),
        ensures
            r == rdlength_at(raw@, self.spec_next()),
    {
        let n = raw.len();
        let i = self.next_index + 8;
        proof {
            assert(i + 2 <= n);
        }
        read_be_u16(&raw[i..i + 2])
    }

    /// The record's decoded payload; only a full resource record has one.
    pub fn get_data(&self, raw: &[u8]) -> (r: Data)
        requires
            self.wf_full(raw@),
        ensures
            r@ == data_at(
                raw@,
                self.spec_next() + 10,
                rdlength_at(raw@, self.spec_next()) as int,
                type_at(raw@, self.spec_next()),
                class_at(raw@, self.spec_next()),
            ),
    {
        let n = raw.len();
        let i = self.next_index + 10;
        proof {
            assert(i <= n);
        }
        let length = self.get_data_length(raw) as usize;
        let typ = self.get_type(raw);
        let class = self.get_class(raw);
        Data::get(raw, i, length, typ, class)
    }
}

/// A question: a name, a type and a class.
pub struct DnsQuestion {
    record: DnsRecord,
}

impl DnsQuestion {
    /// The framing record underneath.
    pub closed spec fn spec_record(self) -> DnsRecord {
        self.record
    }

    /// The offset this question was parsed at.
    pub open spec fn spec_offset(self) -> int {
        self.spec_record().spec_offset()
    }

    /// The offsets of the question's labels.
    pub open spec fn spec_labels(self) -> Seq<int> {
        self.spec_record().spec_labels()
    }

    /// The offset of the question's type and class fields.
    pub open spec fn spec_next(self) -> int {
        self.spec_record().spec_next()
    }

    /// A question as `parse` hands it out.
    pub open spec fn wf(self, raw: Seq<u8>) -> bool {
        self.spec_record().wf(raw)
    }

    /// Frames the question at `offset`.
    pub fn parse(raw: &[u8], offset: usize) -> (r: Result<DnsQuestion, DnsError>)
        ensures
            match r {
                Ok(q) => record_at(raw@, offset as int) == Ok::<_, DnsError>(
                    (q.spec_labels(), q.spec_next()),
                ) && q.spec_offset() == offset && q.wf(raw@),
                Err(e) => record_at(raw@, offset as int) == Err::<(Seq<int>, int), _>(e),
            },
    {
        match DnsRecord::parse(raw, offset) {
            Ok(record) => Ok(DnsQuestion { record }),
            Err(e) => Err(e),
        }
    }

    /// The question's name as text, with a placeholder for non-UTF-8
    /// labels.
    pub fn get_name(&self, raw: &[u8]) -> (r: String)
        requires
            self.wf(raw@),
        ensures
            match name_from_indexes(raw@, self.spec_labels()) {
                Ok(n) => r@ == n,
                Err(_) => r@ == "<error>"@,
            },
    {
        self.record.get_name(raw)
    }

    /// The question's type field.
    pub fn get_type(&self, raw: &[u8]) -> (r: Type)
        requires
            self.wf(raw@),
        ensures
            r == type_at(raw@, self.spec_next()),
    {
        self.record.get_type(raw)
    }

    /// The question's class field.
    pub fn get_class(&self, raw: &[u8]) -> (r: Class)
        requires
            self.wf(raw@),
        ensures
            r == class_at(raw@, self.spec_next()),
    {
        self.record.get_class(raw)
    }

    /// The number of bytes the question takes in the message: its name as
    /// encoded here plus its two fixed fields.
    pub fn get_length(&self) -> (r: usize)
        requires
            self.spec_offset() <= self.spec_next(),
            self.spec_next() + 4 <= usize::MAX,
        ensures
            r == self.spec_next() - self.spec_offset() + 4,
    {
        self.record.get_labels_length() + 4
    }
}

/// A full resource record: a name, type, class, ttl and payload.  Answers,
/// authorities and additionals all share this shape.
pub struct DnsAnswer {
    record: DnsRecord,
}

/// An authority resource record has the same fields as an answer.
pub type DnsAuthority = DnsAnswer;

/// An additional resource record has the same fields as an answer.
pub type DnsAdditional = DnsAnswer;

impl DnsAnswer {
    /// The framing record underneath.
    pub closed spec fn spec_record(self) -> DnsRecord {
        self.record
    }

    /// The offset this record was parsed at.
    pub open spec fn spec_offset(self) -> int {
        self.spec_record().spec_offset()
    }

    /// The offsets of the record's labels.
    pub open spec fn spec_labels(self) -> Seq<int> {
        self.spec_record().spec_labels()
    }

    /// The offset of the record's fixed fields.
    pub open spec fn spec_next(self) -> int {
        self.spec_record().spec_next()
    }

    /// A record as `parse` hands it out.
    pub open spec fn wf(self, raw: Seq<u8>) -> bool {
        self.spec_record().wf_full(raw)
    }

    /// Frames the full resource record at `offset`.
    pub fn parse(raw: &[u8], offset: usize) -> (r: Result<DnsAnswer, DnsError>)
        ensures
            match r {
                Ok(a) => answer_at(raw@, offset as int) == Ok::<_, DnsError>(
                    (a.spec_labels(), a.spec_next()),
                ) && a.spec_offset() == offset && a.wf(raw@),
                Err(e) => answer_at(raw@, offset as int) == Err::<(Seq<int>, int), _>(e),
            },
    {
        if offset > raw.len() || raw.len() - offset < DNS_MIN_ANSWER_LENGTH {
            return Err(DnsError::RecordLength);
        }

        let record = match DnsRecord::parse(raw, offset) {
            Ok(rec) => rec,
            Err(e) => return Err(e),
        };

        // the ttl and payload length fields must lie inside the buffer
        if raw.len() - record.next_index < 10 {
            return Err(DnsError::RecordLength);
        }

        Ok(DnsAnswer { record })
    }

    /// The record's name as text, with a placeholder for non-UTF-8 labels.
    pub fn get_name(&self, raw: &[u8]) -> (r: String)
        requires
            self.wf(raw@),
        ensures
            match name_from_indexes(raw@, self.spec_labels()) {
                Ok(n) => r@ == n,
                Err(_) => r@ == "<error>"@,
            },
    {
        self.record.get_name(raw)
    }

    /// The record's type field.
    pub fn get_type(&self, raw: &[u8]) -> (r: Type)
        requires
            self.wf(raw@),
        ensures
            r == type_at(raw@, self.spec_next()),
    {
        self.record.get_type(raw)
    }

    /// The record's class field.
    pub fn get_class(&self, raw: &[u8]) -> (r: Class)
        requires
            self.wf(raw@),
        ensures
            r == class_at(raw@, self.spec_next()),
    {
        self.record.get_class(raw)
    }

    /// The record's ttl field.
    pub fn get_ttl(&self, raw: &[u8]) -> (r: u32)
        requires
            self.wf(raw@),
        ensures
            r == ttl_at(raw@, self.spec_next()),
    {
        self.record.get_ttl(raw)
    }

    /// The record's payload length field.
    pub fn get_data_length(&self, raw: &[u8]) -> (r: u16)
        requires
            self.wf(raw@),
        ensures
            r == rdlength_at(raw@, self.spec_next()),
    {
        self.record.get_data_length(raw)
    }

    /// The record's decoded payload.
    pub fn get_data(&self, raw: &[u8]) -> (r: Data)
        requires
            self.wf(raw@),
        ensures
            r@ == data_at(
                raw@,
                self.spec_next() + 10,
                rdlength_at(raw@, self.spec_next()) as int,
                type_at(raw@, self.spec_next()),
                class_at(raw@, self.spec_next()),
            ),
    {
        self.record.get_data(raw)
    }

    /// The number of bytes the record takes in the message: its name as
    /// encoded here, the ten fixed bytes, and its payload.
    pub fn get_length(&self, raw: &[u8]) -> (r: usize)
        requires
            self.wf(raw@),
            buffer_fits(raw@),
        ensures
            r == self.spec_next() - self.spec_offset() + 10 + rdlength_at(
                raw@,
                self.spec_next(),
            ),
    {
        self.record.get_labels_length() + 10 + (self.record.get_data_length(raw) as usize)
    }
}

} // verus!
