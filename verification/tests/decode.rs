use dns::error::DnsError;
use dns::packet::{DnsPacket, OpCode, RCode};
use dns::record::{Class, Data, Type};

// header ID=0x1234, QR=1, QDCOUNT=1, ANCOUNT=1; question example.com A IN;
// answer reuses a pointer to the question's name, ttl 300, address 192.0.2.1
fn scenario_a_bytes() -> Vec<u8> {
    let mut raw = vec![
        0x12, 0x34, // id
        0x80, 0x00, // qr=1, everything else 0
        0x00, 0x01, // qdcount
        0x00, 0x01, // ancount
        0x00, 0x00, // nscount
        0x00, 0x00, // arcount
    ];
    // question: 7"example"3"com"0, type 1, class 1
    raw.extend_from_slice(&[7]);
    raw.extend_from_slice(b"example");
    raw.extend_from_slice(&[3]);
    raw.extend_from_slice(b"com");
    raw.extend_from_slice(&[0, 0x00, 0x01, 0x00, 0x01]);
    // answer: pointer to offset 12, type 1, class 1, ttl 300, 4 bytes of data
    raw.extend_from_slice(&[0xc0, 0x0c, 0x00, 0x01, 0x00, 0x01]);
    raw.extend_from_slice(&[0x00, 0x00, 0x01, 0x2c]);
    raw.extend_from_slice(&[0x00, 0x04, 192, 0, 2, 1]);
    raw
}

#[test]
fn scenario_a_decodes_fully() {
    let raw = scenario_a_bytes();
    let packet = DnsPacket::parse(&raw).unwrap();
    assert_eq!(packet.get_id(), 0x1234);
    assert_eq!(packet.get_qr(), 1);
    assert_eq!(packet.get_opcode(), OpCode::Query);
    assert_eq!(packet.get_aa(), 0);
    assert_eq!(packet.get_tc(), 0);
    assert_eq!(packet.get_rd(), 0);
    assert_eq!(packet.get_ra(), 0);
    assert_eq!(packet.get_z(), 0);
    assert_eq!(packet.get_rcode(), RCode::NoError);
    assert_eq!(packet.get_questions(), 1);
    assert_eq!(packet.get_answers(), 1);
    assert_eq!(packet.get_authorities(), 0);
    assert_eq!(packet.get_additionals(), 0);

    let question = packet.get_question(0).unwrap();
    assert_eq!(question.get_name(&raw), "example.com.");
    assert_eq!(question.get_type(&raw), Type::A);
    assert_eq!(question.get_class(&raw), Class::In);
    assert_eq!(question.get_length(), 17);

    let answer = packet.get_answer(0).unwrap();
    assert_eq!(answer.get_name(&raw), "example.com.");
    assert_eq!(answer.get_type(&raw), Type::A);
    assert_eq!(answer.get_class(&raw), Class::In);
    assert_eq!(answer.get_ttl(&raw), 300);
    assert_eq!(answer.get_data_length(&raw), 4);
    // 192.0.2.1, big-endian
    assert_eq!(answer.get_data(&raw), Data::A(0xc0000201));
    assert_eq!(answer.get_length(&raw), 16);
}

#[test]
fn scenario_b_truncated_second_answer_aborts() {
    // ancount says two answers but only one fits before the buffer ends
    let mut raw = vec![
        0x00, 0x01, 0x80, 0x00, 0x00, 0x00, 0x00, 0x02, 0x00, 0x00, 0x00, 0x00,
    ];
    // one valid answer: root name, type 1, class 1, ttl 0, no data
    raw.extend_from_slice(&[0x00, 0x00, 0x01, 0x00, 0x01, 0x00, 0x00, 0x00, 0x00, 0x00, 0x00]);
    let result = DnsPacket::parse(&raw);
    assert!(matches!(result, Err(DnsError::RecordLength)));
}

#[test]
fn scenario_c_header_only_message() {
    // 12 zero bytes: a header announcing four empty sections
    let raw = vec![0u8; 12];
    let packet = DnsPacket::parse(&raw).unwrap();
    assert_eq!(packet.get_id(), 0);
    assert_eq!(packet.get_questions(), 0);
    assert_eq!(packet.get_answers(), 0);
    assert_eq!(packet.get_authorities(), 0);
    assert_eq!(packet.get_additionals(), 0);
    assert!(packet.get_question(0).is_none());
    assert!(packet.get_answer(0).is_none());
    assert!(packet.get_authority(0).is_none());
    assert!(packet.get_additional(0).is_none());
}

#[test]
fn short_packet_rejected() {
    let raw = vec![0u8; 11];
    assert!(matches!(DnsPacket::parse(&raw), Err(DnsError::PacketLength)));
    assert!(matches!(DnsPacket::parse(&[]), Err(DnsError::PacketLength)));
}

// one answer with a too-short A payload among valid siblings
fn short_a_message() -> Vec<u8> {
    let mut raw = vec![
        0x00, 0x02, 0x80, 0x00, 0x00, 0x00, 0x00, 0x02, 0x00, 0x00, 0x00, 0x00,
    ];
    // first answer: root name, type A, class IN, ttl 1, length 3 (too short)
    raw.extend_from_slice(&[0x00, 0x00, 0x01, 0x00, 0x01, 0x00, 0x00, 0x00, 0x01, 0x00, 0x03]);
    raw.extend_from_slice(&[9, 9, 9]);
    // second answer: root name, type A, class IN, ttl 2, a valid address
    raw.extend_from_slice(&[0x00, 0x00, 0x01, 0x00, 0x01, 0x00, 0x00, 0x00, 0x02, 0x00, 0x04]);
    raw.extend_from_slice(&[10, 0, 0, 1]);
    raw
}

#[test]
fn short_rdata_is_invalid_without_aborting_siblings() {
    let raw = short_a_message();
    let packet = DnsPacket::parse(&raw).unwrap();
    assert_eq!(packet.get_answers(), 2);
    let first = packet.get_answer(0).unwrap();
    assert_eq!(first.get_data(&raw), Data::Invalid(vec![9, 9, 9]));
    let second = packet.get_answer(1).unwrap();
    assert_eq!(second.get_data(&raw), Data::A(0x0a000001));
    assert_eq!(second.get_ttl(&raw), 2);
}

#[test]
fn answer_name_can_point_into_question() {
    // compressed answer names resolve to the text written at the target
    let raw = scenario_a_bytes();
    let packet = DnsPacket::parse(&raw).unwrap();
    let answer = packet.get_answer(0).unwrap();
    assert_eq!(answer.get_name(&raw), "example.com.");
    // the pointer takes two bytes in the answer, not the full name
    assert_eq!(answer.get_length(&raw), 2 + 10 + 4);
}

#[test]
fn unknown_type_and_class_stay_opaque() {
    let mut raw = vec![
        0x00, 0x00, 0x00, 0x00, 0x00, 0x00, 0x00, 0x02, 0x00, 0x00, 0x00, 0x00,
    ];
    // answer of type 99 (unrecognized), class IN
    raw.extend_from_slice(&[0x00, 0x00, 0x63, 0x00, 0x01, 0x00, 0x00, 0x00, 0x00, 0x00, 0x02]);
    raw.extend_from_slice(&[0xaa, 0xbb]);
    // answer of type A but class CHAOS: no structural decode either
    raw.extend_from_slice(&[0x00, 0x00, 0x01, 0x00, 0x03, 0x00, 0x00, 0x00, 0x00, 0x00, 0x04]);
    raw.extend_from_slice(&[1, 2, 3, 4]);
    let packet = DnsPacket::parse(&raw).unwrap();
    let first = packet.get_answer(0).unwrap();
    assert_eq!(first.get_type(&raw), Type::Unknown(99));
    assert_eq!(first.get_data(&raw), Data::Unknown(vec![0xaa, 0xbb]));
    let second = packet.get_answer(1).unwrap();
    assert_eq!(second.get_class(&raw), Class::Ch);
    assert_eq!(second.get_data(&raw), Data::Unknown(vec![1, 2, 3, 4]));
}

#[test]
fn header_bits_decode() {
    let mut raw = vec![0u8; 12];
    raw[0] = 0xab;
    raw[1] = 0xcd;
    raw[2] = 0b1011_0101; // qr=1 opcode=6 aa=1 tc=0 rd=1
    raw[3] = 0b1011_0010; // ra=1 z=3 rcode=2
    let packet = DnsPacket::parse(&raw).unwrap();
    assert_eq!(packet.get_id(), 0xabcd);
    assert_eq!(packet.get_qr(), 1);
    assert_eq!(packet.get_opcode(), OpCode::Reserved(6));
    assert_eq!(packet.get_aa(), 1);
    assert_eq!(packet.get_tc(), 0);
    assert_eq!(packet.get_rd(), 1);
    assert_eq!(packet.get_ra(), 1);
    assert_eq!(packet.get_z(), 3);
    assert_eq!(packet.get_rcode(), RCode::ServerFailure);
}

#[test]
fn opcode_and_rcode_codes() {
    assert_eq!(OpCode::from(0), OpCode::Query);
    assert_eq!(OpCode::from(1), OpCode::IQuery);
    assert_eq!(OpCode::from(2), OpCode::Status);
    assert_eq!(OpCode::from(9), OpCode::Reserved(9));
    assert_eq!(u8::from(OpCode::Status), 2);
    assert_eq!(u8::from(OpCode::Reserved(13)), 13);
    assert_eq!(RCode::from(0), RCode::NoError);
    assert_eq!(RCode::from(1), RCode::FormatError);
    assert_eq!(RCode::from(2), RCode::ServerFailure);
    assert_eq!(RCode::from(3), RCode::NameError);
    assert_eq!(RCode::from(4), RCode::NotImplemented);
    assert_eq!(RCode::from(5), RCode::Refused);
    assert_eq!(RCode::from(12), RCode::Reserved(12));
    assert_eq!(u8::from(RCode::Refused), 5);
    assert_eq!(u8::from(RCode::Reserved(7)), 7);
}

#[test]
fn question_name_running_off_buffer_aborts() {
    let mut raw = vec![
        0x00, 0x00, 0x00, 0x00, 0x00, 0x01, 0x00, 0x00, 0x00, 0x00, 0x00, 0x00,
    ];
    // the label claims 9 bytes but only 4 more follow
    raw.extend_from_slice(&[9, b'a', b'b', b'c', b'd']);
    assert!(matches!(DnsPacket::parse(&raw), Err(DnsError::LabelLength)));
}

#[test]
fn self_pointing_question_name_aborts() {
    let mut raw = vec![
        0x00, 0x00, 0x00, 0x00, 0x00, 0x01, 0x00, 0x00, 0x00, 0x00, 0x00, 0x00,
    ];
    // a pointer at offset 12 aimed at offset 12, then the fixed fields
    raw.extend_from_slice(&[0xc0, 0x0c, 0x00, 0x01, 0x00, 0x01]);
    assert!(matches!(DnsPacket::parse(&raw), Err(DnsError::LabelReference)));
}

#[test]
fn uncompressed_message_rederives_all_fields() {
    // one question and one answer, names written out in full
    let mut raw = vec![
        0xbe, 0xef, 0x85, 0x80, 0x00, 0x01, 0x00, 0x01, 0x00, 0x00, 0x00, 0x00,
    ];
    raw.extend_from_slice(&[2, b'h', b'i', 2, b'd', b'e', 0, 0x00, 0x10, 0x00, 0x01]);
    raw.extend_from_slice(&[2, b'h', b'i', 2, b'd', b'e', 0]);
    raw.extend_from_slice(&[0x00, 0x10, 0x00, 0x01, 0x00, 0x00, 0x0e, 0x10, 0x00, 0x03]);
    raw.extend_from_slice(&[2, b'o', b'k']);
    let packet = DnsPacket::parse(&raw).unwrap();
    assert_eq!(packet.get_id(), 0xbeef);
    assert_eq!(packet.get_qr(), 1);
    assert_eq!(packet.get_aa(), 1);
    assert_eq!(packet.get_rd(), 1);
    assert_eq!(packet.get_ra(), 1);
    let question = packet.get_question(0).unwrap();
    assert_eq!(question.get_name(&raw), "hi.de.");
    assert_eq!(question.get_type(&raw), Type::Txt);
    assert_eq!(question.get_class(&raw), Class::In);
    let answer = packet.get_answer(0).unwrap();
    assert_eq!(answer.get_name(&raw), "hi.de.");
    assert_eq!(answer.get_type(&raw), Type::Txt);
    assert_eq!(answer.get_class(&raw), Class::In);
    assert_eq!(answer.get_ttl(&raw), 3600);
    assert_eq!(answer.get_data_length(&raw), 3);
    assert_eq!(answer.get_data(&raw), Data::Txt(vec!["ok".to_string()]));
}
