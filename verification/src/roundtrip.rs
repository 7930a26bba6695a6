//! Wire encodings stated at the specification level, and the laws that
//! decoding them gives back exactly what was encoded.

use vstd::prelude::*;
use vstd::utf8::{decode_utf8, valid_utf8};

use crate::characters::{char_strings, char_strings_from};
use crate::error::DnsError;
use crate::helpers::be_uint;
use crate::labels::{label_bytes, labels_from, name_from_indexes};
use crate::packet::{
    aa_at, ancount_at, answers_from, arcount_at, id_at, nscount_at, opcode_at, opcode_from_code,
    packet_at, qdcount_at, qr_at, questions_from, ra_at, rcode_at, rcode_from_code, rd_at, tc_at,
    z_at,
};
use crate::record::{answer_at, be16_at, be32_at, rdlength_at, record_at};

verus! {

/// The two bytes of a 16-bit field in big-endian order.
pub open spec fn be16_bytes(v: u16) -> Seq<u8> {
    seq![(v / 256) as u8, (v % 256) as u8]
}

/// The four bytes of a 32-bit field in big-endian order.
pub open spec fn be32_bytes(v: u32) -> Seq<u8> {
    seq![
        (v / 0x1000000) as u8,
        ((v / 0x10000) % 256) as u8,
        ((v / 256) % 256) as u8,
        (v % 256) as u8,
    ]
}

/// Reading back the two bytes of a 16-bit field gives the field.
pub proof fn lemma_be_uint_of_be16(v: u16)
    ensures
        be_uint(be16_bytes(v)) == v,
{
    let s = be16_bytes(v);
    assert(s.drop_last() =~= seq![(v / 256) as u8]);
    assert(seq![(v / 256) as u8].drop_last() =~= Seq::<u8>::empty());
    vstd::arithmetic::div_mod::lemma_fundamental_div_mod(v as int, 256);
    vstd::arithmetic::div_mod::lemma_mod_bound(v as int, 256);
    assert(v as int / 256 <= 255);
    assert(be_uint(Seq::<u8>::empty()) == 0);
    assert(be_uint(seq![(v / 256) as u8]) == (v / 256) as u8);
    assert(be_uint(s) == (v / 256) as u8 * 256 + (v % 256) as u8);
}

/// Reading back the four bytes of a 32-bit field gives the field.
pub proof fn lemma_be_uint_of_be32(v: u32)
    ensures
        be_uint(be32_bytes(v)) == v,
{
    let s = be32_bytes(v);
    assert(s.drop_last() =~= seq![s[0], s[1], s[2]]);
    assert(seq![s[0], s[1], s[2]].drop_last() =~= seq![s[0], s[1]]);
    assert(seq![s[0], s[1]].drop_last() =~= seq![s[0]]);
    assert(seq![s[0]].drop_last() =~= Seq::<u8>::empty());
    vstd::arithmetic::div_mod::lemma_fundamental_div_mod(v as int, 256);
    vstd::arithmetic::div_mod::lemma_mod_bound(v as int, 256);
    let x1 = v as int / 256;
    vstd::arithmetic::div_mod::lemma_fundamental_div_mod(x1, 256);
    vstd::arithmetic::div_mod::lemma_mod_bound(x1, 256);
    vstd::arithmetic::div_mod::lemma_div_denominator(v as int, 256, 256);
    let x2 = v as int / 0x10000;
    vstd::arithmetic::div_mod::lemma_fundamental_div_mod(x2, 256);
    vstd::arithmetic::div_mod::lemma_mod_bound(x2, 256);
    vstd::arithmetic::div_mod::lemma_div_denominator(v as int, 0x10000, 256);
    vstd::arithmetic::div_mod::lemma_fundamental_div_mod(v as int, 0x1000000);
    vstd::arithmetic::div_mod::lemma_mod_bound(v as int, 0x1000000);
    assert(x1 / 256 == x2);
    assert(x2 / 256 == v as int / 0x1000000);
    assert(v as int / 0x1000000 <= 255);
    assert(be_uint(Seq::<u8>::empty()) == 0);
    assert(be_uint(seq![s[0]]) == s[0]);
    assert(be_uint(seq![s[0], s[1]]) == s[0] * 256 + s[1]);
    assert(be_uint(seq![s[0], s[1], s[2]]) == (s[0] * 256 + s[1]) * 256 + s[2]);
    assert(be_uint(s) == ((s[0] * 256 + s[1]) * 256 + s[2]) * 256 + s[3]);
    assert(s[0] == v as int / 0x1000000);
    assert(s[1] == x2 % 256);
    assert(s[2] == x1 % 256);
    assert(s[3] == v as int % 256);
}

/// The packed encoding of a sequence of character strings: each string's
/// length byte, then its bytes.
pub open spec fn encode_char_strings(strs: Seq<Seq<u8>>) -> Seq<u8>
    decreases strs.len(),
{
    if strs.len() == 0 {
        Seq::empty()
    } else {
        seq![strs[0].len() as u8] + strs[0] + encode_char_strings(strs.drop_first())
    }
}

proof fn lemma_char_strings_from_encoded(raw: Seq<u8>, i: int, strs: Seq<Seq<u8>>)
    requires
        forall|m: int|
            0 <= m < strs.len() ==> (#[trigger] strs[m]).len() <= 255 && valid_utf8(strs[m]),
        0 <= i <= raw.len(),
        raw.subrange(i, raw.len() as int) == encode_char_strings(strs),
    ensures
        char_strings_from(raw, i) == Ok::<_, DnsError>(
            strs.map_values(|b: Seq<u8>| decode_utf8(b)),
        ),
    decreases strs.len(),
{
    let tail = raw.subrange(i, raw.len() as int);
    if strs.len() == 0 {
        assert(i == raw.len());
        assert(strs.map_values(|b: Seq<u8>| decode_utf8(b)) =~= Seq::<Seq<char>>::empty());
    } else {
        let head = strs[0];
        let l = head.len() as int;
        let rest_enc = encode_char_strings(strs.drop_first());
        assert(tail.len() == 1 + l + rest_enc.len());
        assert(raw[i] == tail[0]);
        assert(raw[i] == head.len() as u8);
        assert(i + 1 + l <= raw.len());
        assert(raw.subrange(i + 1, i + 1 + l) =~= head) by {
            assert forall|m: int| 0 <= m < l implies raw.subrange(i + 1, i + 1 + l)[m] == head[m]
            by {
                assert(raw[i + 1 + m] == tail[1 + m]);
            }
        }
        assert(raw.subrange(i + 1 + l, raw.len() as int) =~= rest_enc) by {
            assert forall|m: int|
                0 <= m < rest_enc.len() implies raw.subrange(i + 1 + l, raw.len() as int)[m]
                == rest_enc[m] by {
                assert(raw[i + 1 + l + m] == tail[1 + l + m]);
            }
        }
        lemma_char_strings_from_encoded(raw, i + 1 + l, strs.drop_first());
        assert(seq![decode_utf8(head)] + strs.drop_first().map_values(
            |b: Seq<u8>| decode_utf8(b),
        ) =~= strs.map_values(|b: Seq<u8>| decode_utf8(b)));
    }
}

/// TXT round trip: packed character strings whose lengths sum to the
/// payload decode to exactly as many strings, each with the bytes it was
/// packed from.
pub proof fn theorem_char_strings_roundtrip(strs: Seq<Seq<u8>>)
    requires
        forall|m: int|
            0 <= m < strs.len() ==> (#[trigger] strs[m]).len() <= 255 && valid_utf8(strs[m]),
    ensures
        char_strings(encode_char_strings(strs)) == Ok::<_, DnsError>(
            strs.map_values(|b: Seq<u8>| decode_utf8(b)),
        ),
{
    let enc = encode_char_strings(strs);
    assert(enc.subrange(0, enc.len() as int) =~= enc);
    lemma_char_strings_from_encoded(enc, 0, strs);
}

/// The wire encoding of an uncompressed name: each label's length byte and
/// bytes, closed by the root's zero byte.
pub open spec fn encode_name(labels: Seq<Seq<u8>>) -> Seq<u8>
    decreases labels.len(),
{
    if labels.len() == 0 {
        seq![0u8]
    } else {
        seq![labels[0].len() as u8] + labels[0] + encode_name(labels.drop_first())
    }
}

/// A sequence of label texts that can be encoded: each between one and 63
/// bytes, as the wire format's length prefix demands.
pub open spec fn wf_name(labels: Seq<Seq<u8>>) -> bool {
    forall|m: int| 0 <= m < labels.len() ==> 1 <= (#[trigger] labels[m]).len() <= 63
}

/// Where the labels of an uncompressed name encoded at `off` come to lie.
pub open spec fn label_positions(off: int, labels: Seq<Seq<u8>>) -> Seq<int>
    decreases labels.len(),
{
    if labels.len() == 0 {
        Seq::empty()
    } else {
        seq![off] + label_positions(off + 1 + labels[0].len(), labels.drop_first())
    }
}

/// An encoded name takes one byte per label and its texts, plus the root.
pub proof fn lemma_encode_name_len(labels: Seq<Seq<u8>>)
    ensures
        encode_name(labels).len() >= labels.len() + 1,
    decreases labels.len(),
{
    if labels.len() > 0 {
        lemma_encode_name_len(labels.drop_first());
    }
}

/// Decoding an uncompressed name encoded at `off` finds exactly its
/// labels, each with the bytes it was encoded from, and leaves the cursor
/// right after the name.  One fuel unit per label and one for the root
/// suffice, whatever walk state the name is met in.
pub proof fn lemma_name_decodes(
    raw: Seq<u8>,
    off: int,
    labels: Seq<Seq<u8>>,
    chasing: bool,
    next: int,
    fuel: nat,
)
    requires
        wf_name(labels),
        0 <= off,
        off + encode_name(labels).len() <= raw.len(),
        raw.subrange(off, off + encode_name(labels).len()) == encode_name(labels),
        fuel >= labels.len() + 1,
    ensures
        ({
            let ps = label_positions(off, labels);
            &&& labels_from(raw, off, chasing, next, fuel) == Ok::<_, DnsError>(
                (
                    ps,
                    if chasing {
                        next
                    } else {
                        off + encode_name(labels).len()
                    },
                ),
            )
            &&& ps.len() == labels.len()
            &&& forall|m: int|
                0 <= m < labels.len() ==> label_bytes(raw, #[trigger] ps[m]) == labels[m]
        }),
    decreases labels.len(),
{
    let enc = encode_name(labels);
    let ps = label_positions(off, labels);
    if labels.len() == 0 {
        assert(raw[off] == enc[0]);
        assert(raw[off] == 0);
    } else {
        let head = labels[0];
        let l = head.len() as int;
        let rest = labels.drop_first();
        let rest_enc = encode_name(rest);
        assert(enc.len() == 1 + l + rest_enc.len());
        assert(raw[off] == enc[0]);
        assert(raw[off] == head.len() as u8);
        let b = raw[off];
        assert(b == l);
        assert(b != 0);
        assert(b < 64 ==> b & 0xc0 == 0) by (bit_vector);
        // the label's own bytes
        assert(raw.subrange(off + 1, off + 1 + l) =~= head) by {
            assert forall|m: int|
                0 <= m < l implies raw.subrange(off + 1, off + 1 + l)[m] == head[m] by {
                assert(raw[off + 1 + m] == enc[1 + m]);
            }
        }
        // the rest of the name is encoded right behind this label
        assert(raw.subrange(off + 1 + l, off + 1 + l + rest_enc.len()) =~= rest_enc) by {
            assert forall|m: int|
                0 <= m < rest_enc.len() implies raw.subrange(
                off + 1 + l,
                off + 1 + l + rest_enc.len(),
            )[m] == rest_enc[m] by {
                assert(raw[off + 1 + l + m] == enc[1 + l + m]);
            }
        }
        lemma_name_decodes(raw, off + 1 + l, rest, chasing, next, (fuel - 1) as nat);
        let ps2 = label_positions(off + 1 + l, rest);
        assert(ps =~= seq![off] + ps2);
        assert(label_bytes(raw, off) =~= raw.subrange(off + 1, off + 1 + l));
        assert(forall|m: int| 1 <= m < labels.len() ==> ps[m] == ps2[m - 1]);
        assert(forall|m: int| 1 <= m < labels.len() ==> labels[m] == rest[m - 1]);
    }
}

/// An abstract question to encode: a name and two codes.
pub struct QuestionModel {
    pub name: Seq<Seq<u8>>,
    pub qtype: u16,
    pub qclass: u16,
}

/// An abstract resource record to encode: a name, three fixed fields and a
/// payload.
pub struct AnswerModel {
    pub name: Seq<Seq<u8>>,
    pub atype: u16,
    pub aclass: u16,
    pub ttl: u32,
    pub rdata: Seq<u8>,
}

/// A record whose payload the wire format's 16-bit length field can carry.
pub open spec fn wf_answer_model(a: AnswerModel) -> bool {
    &&& wf_name(a.name)
    &&& a.rdata.len() <= 0xffff
}

/// The wire encoding of a question.
pub open spec fn encode_question(q: QuestionModel) -> Seq<u8> {
    encode_name(q.name) + be16_bytes(q.qtype) + be16_bytes(q.qclass)
}

/// The wire encoding of a full resource record.
pub open spec fn encode_answer(a: AnswerModel) -> Seq<u8> {
    encode_name(a.name) + be16_bytes(a.atype) + be16_bytes(a.aclass) + be32_bytes(a.ttl)
        + be16_bytes(a.rdata.len() as u16) + a.rdata
}

/// The wire encoding of a question section, back to back.
pub open spec fn encode_questions(qs: Seq<QuestionModel>) -> Seq<u8>
    decreases qs.len(),
{
    if qs.len() == 0 {
        Seq::empty()
    } else {
        encode_question(qs[0]) + encode_questions(qs.drop_first())
    }
}

/// The wire encoding of a record section, back to back.
pub open spec fn encode_answers(ans: Seq<AnswerModel>) -> Seq<u8>
    decreases ans.len(),
{
    if ans.len() == 0 {
        Seq::empty()
    } else {
        encode_answer(ans[0]) + encode_answers(ans.drop_first())
    }
}

/// What the decoder's view of one question must say to re-derive the
/// question exactly: as many labels as encoded, each label's bytes, and
/// the two fixed fields.
pub open spec fn question_matches(raw: Seq<u8>, v: (Seq<int>, int), q: QuestionModel) -> bool {
    &&& v.0.len() == q.name.len()
    &&& forall|m: int| 0 <= m < q.name.len() ==> label_bytes(raw, #[trigger] v.0[m]) == q.name[m]
    &&& be16_at(raw, v.1) == q.qtype
    &&& be16_at(raw, v.1 + 2) == q.qclass
}

/// What the decoder's view of one resource record must say to re-derive
/// the record exactly: its labels, the four fixed fields, and the payload
/// bytes.
pub open spec fn answer_matches(raw: Seq<u8>, v: (Seq<int>, int), a: AnswerModel) -> bool {
    &&& v.0.len() == a.name.len()
    &&& forall|m: int| 0 <= m < a.name.len() ==> label_bytes(raw, #[trigger] v.0[m]) == a.name[m]
    &&& be16_at(raw, v.1) == a.atype
    &&& be16_at(raw, v.1 + 2) == a.aclass
    &&& be32_at(raw, v.1 + 4) == a.ttl
    &&& rdlength_at(raw, v.1) == a.rdata.len()
    &&& raw.subrange(v.1 + 10, v.1 + 10 + a.rdata.len()) == a.rdata
}

proof fn lemma_questions_decode(raw: Seq<u8>, off: int, qs: Seq<QuestionModel>)
    requires
        forall|i: int| 0 <= i < qs.len() ==> wf_name((#[trigger] qs[i]).name),
        0 <= off,
        off + encode_questions(qs).len() <= raw.len(),
        raw.subrange(off, off + encode_questions(qs).len()) == encode_questions(qs),
    ensures
        ({
            let r = questions_from(raw, off, qs.len() as nat);
            &&& r is Ok
            &&& r->Ok_0.1 == off + encode_questions(qs).len()
            &&& r->Ok_0.0.len() == qs.len()
            &&& forall|j: int|
                0 <= j < qs.len() ==> question_matches(raw, #[trigger] r->Ok_0.0[j], qs[j])
        }),
    decreases qs.len(),
{
    if qs.len() == 0 {
    } else {
        let q0 = qs[0];
        let en = encode_name(q0.name);
        let eq = encode_question(q0);
        let enc = encode_questions(qs);
        let rest_enc = encode_questions(qs.drop_first());
        lemma_encode_name_len(q0.name);
        assert(enc.len() == eq.len() + rest_enc.len());
        assert(eq.len() == en.len() + 4);
        // this question's name lies at off
        assert(raw.subrange(off, off + en.len()) =~= en) by {
            assert forall|m: int|
                0 <= m < en.len() implies raw.subrange(off, off + en.len())[m] == en[m] by {
                assert(raw[off + m] == enc[m]);
                assert(enc[m] == eq[m]);
                assert(eq[m] == en[m]);
            }
        }
        lemma_name_decodes(raw, off, q0.name, false, 0, raw.len());
        let nx = off + en.len();
        // its type and class fields right after the name
        assert(raw.subrange(nx, nx + 2) =~= be16_bytes(q0.qtype)) by {
            assert forall|m: int|
                0 <= m < 2 implies raw.subrange(nx, nx + 2)[m] == be16_bytes(q0.qtype)[m] by {
                assert(raw[nx + m] == enc[en.len() + m]);
                assert(enc[en.len() + m] == eq[en.len() + m]);
            }
        }
        assert(raw.subrange(nx + 2, nx + 4) =~= be16_bytes(q0.qclass)) by {
            assert forall|m: int|
                0 <= m < 2 implies raw.subrange(nx + 2, nx + 4)[m] == be16_bytes(q0.qclass)[m] by {
                assert(raw[nx + 2 + m] == enc[en.len() + 2 + m]);
                assert(enc[en.len() + 2 + m] == eq[en.len() + 2 + m]);
            }
        }
        lemma_be_uint_of_be16(q0.qtype);
        lemma_be_uint_of_be16(q0.qclass);
        assert(be16_at(raw, nx) == q0.qtype);
        assert(be16_at(raw, nx + 2) == q0.qclass);
        // the rest of the section follows at the question's end
        assert(raw.subrange(off + eq.len(), off + eq.len() + rest_enc.len()) =~= rest_enc) by {
            assert forall|m: int|
                0 <= m < rest_enc.len() implies raw.subrange(
                off + eq.len(),
                off + eq.len() + rest_enc.len(),
            )[m] == rest_enc[m] by {
                assert(raw[off + eq.len() + m] == enc[eq.len() + m]);
            }
        }
        lemma_questions_decode(raw, off + eq.len(), qs.drop_first());
        assert(record_at(raw, off) == Ok::<_, DnsError>((label_positions(off, q0.name), nx)));
        let r = questions_from(raw, off, qs.len() as nat);
        let rrest = questions_from(raw, nx + 4, (qs.len() - 1) as nat);
        assert(r is Ok);
        assert forall|j: int|
            0 <= j < qs.len() implies question_matches(raw, #[trigger] r->Ok_0.0[j], qs[j]) by {
            if j == 0 {
                assert(r->Ok_0.0[0] == (label_positions(off, q0.name), nx));
            } else {
                assert(r->Ok_0.0[j] == rrest->Ok_0.0[j - 1]);
                assert(qs[j] == qs.drop_first()[j - 1]);
            }
        }
    }
}

proof fn lemma_answers_decode(raw: Seq<u8>, off: int, ans: Seq<AnswerModel>)
    requires
        forall|i: int| 0 <= i < ans.len() ==> wf_answer_model(#[trigger] ans[i]),
        0 <= off,
        off + encode_answers(ans).len() <= raw.len(),
        raw.subrange(off, off + encode_answers(ans).len()) == encode_answers(ans),
    ensures
        ({
            let r = answers_from(raw, off, ans.len() as nat);
            &&& r is Ok
            &&& r->Ok_0.1 == off + encode_answers(ans).len()
            &&& r->Ok_0.0.len() == ans.len()
            &&& forall|j: int|
                0 <= j < ans.len() ==> answer_matches(raw, #[trigger] r->Ok_0.0[j], ans[j])
        }),
    decreases ans.len(),
{
    if ans.len() == 0 {
    } else {
        let a0 = ans[0];
        let en = encode_name(a0.name);
        let ea = encode_answer(a0);
        let enc = encode_answers(ans);
        let rest_enc = encode_answers(ans.drop_first());
        let dl = a0.rdata.len() as int;
        lemma_encode_name_len(a0.name);
        assert(enc.len() == ea.len() + rest_enc.len());
        assert(ea.len() == en.len() + 10 + dl);
        // this record's name lies at off
        assert(raw.subrange(off, off + en.len()) =~= en) by {
            assert forall|m: int|
                0 <= m < en.len() implies raw.subrange(off, off + en.len())[m] == en[m] by {
                assert(raw[off + m] == enc[m]);
                assert(enc[m] == ea[m]);
                assert(ea[m] == en[m]);
            }
        }
        lemma_name_decodes(raw, off, a0.name, false, 0, raw.len());
        let nx = off + en.len();
        // the six fixed fields and the payload right after the name
        assert forall|m: int| 0 <= m < 10 + dl implies #[trigger] raw[nx + m] == ea[en.len() + m] by {
            assert(raw[nx + m] == enc[en.len() + m]);
            assert(enc[en.len() + m] == ea[en.len() + m]);
        }
        let fixed = be16_bytes(a0.atype) + be16_bytes(a0.aclass) + be32_bytes(a0.ttl)
            + be16_bytes(a0.rdata.len() as u16) + a0.rdata;
        assert forall|m: int| 0 <= m < 10 + dl implies ea[en.len() + m] == #[trigger] fixed[m] by {
            assert(ea =~= en + fixed);
        }
        assert(raw.subrange(nx, nx + 2) =~= be16_bytes(a0.atype)) by {
            assert forall|m: int|
                0 <= m < 2 implies raw.subrange(nx, nx + 2)[m] == be16_bytes(a0.atype)[m] by {
                assert(raw[nx + m] == fixed[m]);
            }
        }
        assert(raw.subrange(nx + 2, nx + 4) =~= be16_bytes(a0.aclass)) by {
            assert forall|m: int|
                0 <= m < 2 implies raw.subrange(nx + 2, nx + 4)[m] == be16_bytes(a0.aclass)[m] by {
                let j = 2 + m;
                assert(raw[nx + j] == ea[en.len() + j]);
                assert(ea[en.len() + j] == fixed[j]);
            }
        }
        assert(raw.subrange(nx + 4, nx + 8) =~= be32_bytes(a0.ttl)) by {
            assert forall|m: int|
                0 <= m < 4 implies raw.subrange(nx + 4, nx + 8)[m] == be32_bytes(a0.ttl)[m] by {
                let j = 4 + m;
                assert(raw[nx + j] == ea[en.len() + j]);
                assert(ea[en.len() + j] == fixed[j]);
            }
        }
        assert(raw.subrange(nx + 8, nx + 10) =~= be16_bytes(a0.rdata.len() as u16)) by {
            assert forall|m: int|
                0 <= m < 2 implies #[trigger] raw.subrange(nx + 8, nx + 10)[m] == be16_bytes(
                a0.rdata.len() as u16,
            )[m] by {
                let j = 8 + m;
                assert(raw[nx + j] == ea[en.len() + j]);
                assert(ea[en.len() + j] == fixed[j]);
            }
        }
        assert(raw.subrange(nx + 10, nx + 10 + dl) =~= a0.rdata) by {
            assert forall|m: int|
                0 <= m < dl implies raw.subrange(nx + 10, nx + 10 + dl)[m] == a0.rdata[m] by {
                let j = 10 + m;
                assert(raw[nx + j] == ea[en.len() + j]);
                assert(ea[en.len() + j] == fixed[j]);
            }
        }
        lemma_be_uint_of_be16(a0.atype);
        lemma_be_uint_of_be16(a0.aclass);
        lemma_be_uint_of_be32(a0.ttl);
        lemma_be_uint_of_be16(a0.rdata.len() as u16);
        assert(be16_at(raw, nx) == a0.atype);
        assert(be16_at(raw, nx + 2) == a0.aclass);
        assert(be32_at(raw, nx + 4) == a0.ttl);
        assert(rdlength_at(raw, nx) == a0.rdata.len());
        // the rest of the section follows at the record's end
        assert(raw.subrange(off + ea.len(), off + ea.len() + rest_enc.len()) =~= rest_enc) by {
            assert forall|m: int|
                0 <= m < rest_enc.len() implies raw.subrange(
                off + ea.len(),
                off + ea.len() + rest_enc.len(),
            )[m] == rest_enc[m] by {
                assert(raw[off + ea.len() + m] == enc[ea.len() + m]);
            }
        }
        lemma_answers_decode(raw, off + ea.len(), ans.drop_first());
        assert(answer_at(raw, off) == Ok::<_, DnsError>((label_positions(off, a0.name), nx)));
        let r = answers_from(raw, off, ans.len() as nat);
        let rrest = answers_from(raw, nx + 10 + dl, (ans.len() - 1) as nat);
        assert(nx + 10 + rdlength_at(raw, nx) == off + ea.len());
        assert(r is Ok);
        assert forall|j: int|
            0 <= j < ans.len() implies answer_matches(raw, #[trigger] r->Ok_0.0[j], ans[j]) by {
            if j == 0 {
                assert(r->Ok_0.0[0] == (label_positions(off, a0.name), nx));
            } else {
                assert(r->Ok_0.0[j] == rrest->Ok_0.0[j - 1]);
                assert(ans[j] == ans.drop_first()[j - 1]);
            }
        }
    }
}

/// The 12 header bytes: id, the two flag bytes, and the four counts.
pub open spec fn encode_header(
    id: u16,
    flags2: u8,
    flags3: u8,
    qd: u16,
    an: u16,
    ns: u16,
    ar: u16,
) -> Seq<u8> {
    be16_bytes(id) + seq![flags2, flags3] + be16_bytes(qd) + be16_bytes(an) + be16_bytes(ns)
        + be16_bytes(ar)
}

/// The wire encoding of a whole message with uncompressed names: the
/// header announcing each section's length, then the four sections back to
/// back.
pub open spec fn encode_message(
    id: u16,
    flags2: u8,
    flags3: u8,
    qs: Seq<QuestionModel>,
    ans: Seq<AnswerModel>,
    auths: Seq<AnswerModel>,
    adds: Seq<AnswerModel>,
) -> Seq<u8> {
    encode_header(
        id,
        flags2,
        flags3,
        qs.len() as u16,
        ans.len() as u16,
        auths.len() as u16,
        adds.len() as u16,
    ) + encode_questions(qs) + encode_answers(ans) + encode_answers(auths) + encode_answers(adds)
}

/// Message round trip: a valid message whose names are not compressed
/// decodes, and every header field, every count, and every record's name,
/// fixed fields and payload re-derive exactly what was encoded.
#[verifier::rlimit(100)]
pub proof fn theorem_message_roundtrip(
    id: u16,
    flags2: u8,
    flags3: u8,
    qs: Seq<QuestionModel>,
    ans: Seq<AnswerModel>,
    auths: Seq<AnswerModel>,
    adds: Seq<AnswerModel>,
)
    requires
        qs.len() <= 0xffff,
        ans.len() <= 0xffff,
        auths.len() <= 0xffff,
        adds.len() <= 0xffff,
        forall|i: int| 0 <= i < qs.len() ==> wf_name((#[trigger] qs[i]).name),
        forall|i: int| 0 <= i < ans.len() ==> wf_answer_model(#[trigger] ans[i]),
        forall|i: int| 0 <= i < auths.len() ==> wf_answer_model(#[trigger] auths[i]),
        forall|i: int| 0 <= i < adds.len() ==> wf_answer_model(#[trigger] adds[i]),
    ensures
        ({
            let raw = encode_message(id, flags2, flags3, qs, ans, auths, adds);
            &&& id_at(raw) == id
            &&& raw[2] == flags2
            &&& raw[3] == flags3
            &&& qr_at(raw) == (flags2 & 0b10000000) >> 7
            &&& opcode_at(raw) == opcode_from_code((flags2 & 0b01111000) >> 3)
            &&& aa_at(raw) == (flags2 & 0b00000100) >> 2
            &&& tc_at(raw) == (flags2 & 0b00000010) >> 1
            &&& rd_at(raw) == flags2 & 0b00000001
            &&& ra_at(raw) == (flags3 & 0b10000000) >> 7
            &&& z_at(raw) == (flags3 & 0b01110000) >> 4
            &&& rcode_at(raw) == rcode_from_code(flags3 & 0b00001111)
            &&& qdcount_at(raw) == qs.len()
            &&& ancount_at(raw) == ans.len()
            &&& nscount_at(raw) == auths.len()
            &&& arcount_at(raw) == adds.len()
            &&& packet_at(raw) is Ok
            &&& ({
                let (vq, va, vu, vd) = packet_at(raw)->Ok_0;
                &&& vq.len() == qs.len()
                &&& va.len() == ans.len()
                &&& vu.len() == auths.len()
                &&& vd.len() == adds.len()
                &&& forall|j: int|
                    0 <= j < qs.len() ==> question_matches(raw, #[trigger] vq[j], qs[j])
                &&& forall|j: int|
                    0 <= j < ans.len() ==> answer_matches(raw, #[trigger] va[j], ans[j])
                &&& forall|j: int|
                    0 <= j < auths.len() ==> answer_matches(raw, #[trigger] vu[j], auths[j])
                &&& forall|j: int|
                    0 <= j < adds.len() ==> answer_matches(raw, #[trigger] vd[j], adds[j])
            })
        }),
{
    let h = encode_header(
        id,
        flags2,
        flags3,
        qs.len() as u16,
        ans.len() as u16,
        auths.len() as u16,
        adds.len() as u16,
    );
    let eq = encode_questions(qs);
    let ea = encode_answers(ans);
    let eu = encode_answers(auths);
    let ed = encode_answers(adds);
    let raw = encode_message(id, flags2, flags3, qs, ans, auths, adds);
    assert(h.len() == 12);
    assert(raw.len() == 12 + eq.len() + ea.len() + eu.len() + ed.len());
    assert forall|m: int| 0 <= m < 12 implies #[trigger] raw[m] == h[m] by {}
    assert(raw.subrange(0, 2) =~= be16_bytes(id));
    assert(raw[2] == flags2);
    assert(raw[3] == flags3);
    assert(raw.subrange(4, 6) =~= be16_bytes(qs.len() as u16));
    assert(raw.subrange(6, 8) =~= be16_bytes(ans.len() as u16));
    assert(raw.subrange(8, 10) =~= be16_bytes(auths.len() as u16));
    assert(raw.subrange(10, 12) =~= be16_bytes(adds.len() as u16));
    lemma_be_uint_of_be16(id);
    lemma_be_uint_of_be16(qs.len() as u16);
    lemma_be_uint_of_be16(ans.len() as u16);
    lemma_be_uint_of_be16(auths.len() as u16);
    lemma_be_uint_of_be16(adds.len() as u16);
    let q_off: int = 12;
    let a_off = q_off + eq.len() as int;
    let u_off = a_off + ea.len() as int;
    let d_off = u_off + eu.len() as int;
    assert forall|m: int| 0 <= m < eq.len() implies #[trigger] raw[q_off + m] == eq[m] by {}
    assert forall|m: int| 0 <= m < ea.len() implies #[trigger] raw[a_off + m] == ea[m] by {}
    assert forall|m: int| 0 <= m < eu.len() implies #[trigger] raw[u_off + m] == eu[m] by {}
    assert forall|m: int| 0 <= m < ed.len() implies #[trigger] raw[d_off + m] == ed[m] by {}
    assert(raw.subrange(q_off, q_off + eq.len()) =~= eq);
    assert(raw.subrange(a_off, a_off + ea.len()) =~= ea);
    assert(raw.subrange(u_off, u_off + eu.len()) =~= eu);
    assert(raw.subrange(d_off, d_off + ed.len()) =~= ed);
    lemma_questions_decode(raw, q_off, qs);
    lemma_answers_decode(raw, a_off, ans);
    lemma_answers_decode(raw, u_off, auths);
    lemma_answers_decode(raw, d_off, adds);
    assert(qdcount_at(raw) as nat == qs.len());
    assert(ancount_at(raw) as nat == ans.len());
    assert(nscount_at(raw) as nat == auths.len());
    assert(arcount_at(raw) as nat == adds.len());
}

/// The text a sequence of label byte-strings reads as: each label's
/// characters followed by a dot, in order.
pub open spec fn name_text(labels: Seq<Seq<u8>>) -> Seq<char>
    decreases labels.len(),
{
    if labels.len() == 0 {
        Seq::empty()
    } else {
        decode_utf8(labels[0]) + seq!['.'] + name_text(labels.drop_first())
    }
}

/// Wherever the decoder's view of a name re-derives the encoded labels
/// byte for byte, and those labels are UTF-8, the decoded name text is the
/// labels' text joined with dots: the byte-level round trip carries over
/// to the text a reader gets.
pub proof fn lemma_name_text_rederived(raw: Seq<u8>, ps: Seq<int>, labels: Seq<Seq<u8>>)
    requires
        ps.len() == labels.len(),
        forall|m: int| 0 <= m < labels.len() ==> label_bytes(raw, #[trigger] ps[m]) == labels[m],
        forall|m: int| 0 <= m < labels.len() ==> valid_utf8(#[trigger] labels[m]),
    ensures
        name_from_indexes(raw, ps) == Ok::<_, DnsError>(name_text(labels)),
    decreases labels.len(),
{
    if labels.len() > 0 {
        assert(label_bytes(raw, ps[0]) == labels[0]);
        assert forall|m: int|
            0 <= m < labels.drop_first().len() implies label_bytes(
            raw,
            #[trigger] ps.drop_first()[m],
        ) == labels.drop_first()[m] && valid_utf8(labels.drop_first()[m]) by {
            assert(ps.drop_first()[m] == ps[m + 1]);
            assert(labels.drop_first()[m] == labels[m + 1]);
        }
        lemma_name_text_rederived(raw, ps.drop_first(), labels.drop_first());
    }
}

} // verus!
