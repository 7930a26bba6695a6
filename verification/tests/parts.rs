use dns::characters::get_character_strings;
use dns::error::DnsError;
use dns::helpers::{read_be_u128, read_be_u16, read_be_u32};
use dns::labels::{get_name, get_name_from_labels, parse_labels};
use dns::record::{Class, Data, DnsAnswer, DnsQuestion, DnsRecord, Type};

#[test]
fn big_endian_fields() {
    assert_eq!(read_be_u16(&[0x12, 0x34]), 0x1234);
    assert_eq!(read_be_u16(&[0x00, 0x01]), 1);
    assert_eq!(read_be_u16(&[0xff, 0xff]), 0xffff);
    assert_eq!(read_be_u32(&[0x01, 0x02, 0x03, 0x04]), 0x01020304);
    assert_eq!(read_be_u32(&[0xff, 0x00, 0x00, 0x00]), 0xff000000);
    assert_eq!(
        read_be_u128(&[0, 1, 2, 3, 4, 5, 6, 7, 8, 9, 10, 11, 12, 13, 14, 15]),
        0x000102030405060708090a0b0c0d0e0f
    );
}

#[test]
fn labels_without_references() {
    let mut raw = vec![3, b'w', b'w', b'w', 7];
    raw.extend_from_slice(b"example");
    raw.extend_from_slice(&[3, b'c', b'o', b'm', 0]);
    let (indexes, next) = parse_labels(&raw, 0).unwrap();
    assert_eq!(indexes, vec![0, 4, 12]);
    assert_eq!(next, 17);
    assert_eq!(get_name(&raw, 0).unwrap(), "www.example.com.");
    assert_eq!(
        get_name_from_labels(&raw, &indexes).unwrap(),
        "www.example.com."
    );
}

#[test]
fn root_name_is_empty_text() {
    let raw = [0u8, 0xff];
    let (indexes, next) = parse_labels(&raw, 0).unwrap();
    assert!(indexes.is_empty());
    assert_eq!(next, 1);
    assert_eq!(get_name(&raw, 0).unwrap(), "");
}

#[test]
fn pure_pointer_chain_resolves_to_root() {
    // offset 3 points at 1, which points at 0, where the root label sits
    let raw = [0x00, 0xc0, 0x00, 0xc0, 0x01];
    let (indexes, next) = parse_labels(&raw, 3).unwrap();
    assert!(indexes.is_empty());
    assert_eq!(next, 5);
    assert_eq!(get_name(&raw, 3).unwrap(), "");
}

#[test]
fn pointer_into_earlier_name_resolves() {
    let mut raw = vec![3, b'f', b'o', b'o', 3, b'b', b'a', b'r', 0];
    raw.extend_from_slice(&[3, b'w', b'w', b'w', 0xc0, 0x00]);
    let (indexes, next) = parse_labels(&raw, 9).unwrap();
    assert_eq!(indexes, vec![9, 0, 4]);
    assert_eq!(next, 15);
    assert_eq!(get_name(&raw, 9).unwrap(), "www.foo.bar.");
}

#[test]
fn self_pointer_is_rejected() {
    // a single pointer aimed at itself
    let raw = [0xc0, 0x00];
    assert!(matches!(parse_labels(&raw, 0), Err(DnsError::LabelReference)));
}

#[test]
fn forward_pointer_is_rejected() {
    let raw = [3, b'a', b'b', b'c', 0xc0, 0x06, 0x00, 0x00];
    assert!(matches!(parse_labels(&raw, 4), Err(DnsError::LabelReference)));
}

#[test]
fn name_running_off_buffer_is_rejected() {
    assert!(matches!(parse_labels(&[], 0), Err(DnsError::LabelLength)));
    assert!(matches!(parse_labels(&[5, b'a'], 0), Err(DnsError::LabelLength)));
    // a pointer whose second byte lies past the end
    assert!(matches!(parse_labels(&[0xc0], 0), Err(DnsError::LabelLength)));
    // an offset past the end
    assert!(matches!(parse_labels(&[0], 7), Err(DnsError::LabelLength)));
}

#[test]
fn label_with_invalid_utf8_fails_name_only() {
    let raw = [1, 0xff, 0];
    let (indexes, _) = parse_labels(&raw, 0).unwrap();
    assert_eq!(indexes, vec![0]);
    assert!(matches!(get_name(&raw, 0), Err(DnsError::LabelUtf8)));
}

#[test]
fn character_strings_roundtrip() {
    // three packed strings whose lengths sum to the slice
    let raw = [3, b'f', b'o', b'o', 0, 2, b'h', b'i'];
    let strings = get_character_strings(&raw).unwrap();
    assert_eq!(strings, vec!["foo".to_string(), "".to_string(), "hi".to_string()]);
    let empty: Vec<String> = get_character_strings(&[]).unwrap();
    assert!(empty.is_empty());
}

#[test]
fn character_strings_decode_multibyte_text() {
    // a two-byte UTF-8 sequence decodes to one character, not two bytes
    let raw = [2, 0xc3, 0xa9];
    let strings = get_character_strings(&raw).unwrap();
    assert_eq!(strings, vec!["\u{e9}".to_string()]);
    assert_eq!(strings[0].chars().count(), 1);
}

#[test]
fn character_strings_errors() {
    assert!(matches!(
        get_character_strings(&[5, b'a']),
        Err(DnsError::CharactersLength)
    ));
    // the length byte itself needs text behind it
    assert!(matches!(
        get_character_strings(&[2, b'a', b'b', 1]),
        Err(DnsError::CharactersLength)
    ));
    assert!(matches!(
        get_character_strings(&[2, 0xff, 0xff]),
        Err(DnsError::CharactersUtf8)
    ));
}

#[test]
fn record_framing() {
    let mut raw = vec![3, b'c', b'o', b'm', 0];
    raw.extend_from_slice(&[0x00, 0x05, 0x00, 0x01]);
    let record = DnsRecord::parse(&raw, 0).unwrap();
    assert_eq!(record.get_labels_length(), 5);
    assert_eq!(record.get_name(&raw), "com.");
    assert_eq!(record.get_type(&raw), Type::Cname);
    assert_eq!(record.get_class(&raw), Class::In);
}

#[test]
fn record_too_short_is_rejected() {
    assert!(matches!(
        DnsRecord::parse(&[0, 0, 1, 0], 0),
        Err(DnsError::RecordLength)
    ));
    assert!(matches!(
        DnsRecord::parse(&[0, 0, 1, 0, 1], 3),
        Err(DnsError::RecordLength)
    ));
    assert!(matches!(
        DnsQuestion::parse(&[0, 0, 1, 0], 0),
        Err(DnsError::RecordLength)
    ));
    assert!(matches!(
        DnsAnswer::parse(&[0, 0, 1, 0, 1, 0, 0, 0, 0, 0], 0),
        Err(DnsError::RecordLength)
    ));
}

#[test]
fn question_framing() {
    let mut raw = vec![2, b'i', b'o', 0];
    raw.extend_from_slice(&[0x00, 0x02, 0x00, 0x04]);
    let question = DnsQuestion::parse(&raw, 0).unwrap();
    assert_eq!(question.get_name(&raw), "io.");
    assert_eq!(question.get_type(&raw), Type::Ns);
    assert_eq!(question.get_class(&raw), Class::Hs);
    assert_eq!(question.get_length(), 8);
}

fn answer_bytes(typ: u16, class: u16, rdata: &[u8]) -> Vec<u8> {
    let mut raw = vec![1, b'x', 0];
    raw.extend_from_slice(&[(typ >> 8) as u8, typ as u8, (class >> 8) as u8, class as u8]);
    raw.extend_from_slice(&[0x00, 0x00, 0x00, 0x3c]);
    raw.extend_from_slice(&[(rdata.len() >> 8) as u8, rdata.len() as u8]);
    raw.extend_from_slice(rdata);
    raw
}

#[test]
fn answer_framing_and_payloads() {
    let raw = answer_bytes(1, 1, &[127, 0, 0, 1]);
    let answer = DnsAnswer::parse(&raw, 0).unwrap();
    assert_eq!(answer.get_name(&raw), "x.");
    assert_eq!(answer.get_type(&raw), Type::A);
    assert_eq!(answer.get_class(&raw), Class::In);
    assert_eq!(answer.get_ttl(&raw), 60);
    assert_eq!(answer.get_data_length(&raw), 4);
    assert_eq!(answer.get_data(&raw), Data::A(0x7f000001));
    assert_eq!(answer.get_length(&raw), 3 + 10 + 4);
}

#[test]
fn aaaa_payload() {
    let raw = answer_bytes(28, 1, &[0, 0, 0, 0, 0, 0, 0, 0, 0, 0, 0, 0, 0, 0, 0, 1]);
    let answer = DnsAnswer::parse(&raw, 0).unwrap();
    assert_eq!(answer.get_type(&raw), Type::Aaaa);
    assert_eq!(answer.get_data(&raw), Data::Aaaa(1));
    // a truncated address is invalid, not fatal
    let short = answer_bytes(28, 1, &[0; 10]);
    let answer = DnsAnswer::parse(&short, 0).unwrap();
    assert_eq!(answer.get_data(&short), Data::Invalid(vec![0; 10]));
}

#[test]
fn name_payloads() {
    let raw = answer_bytes(2, 1, &[2, b'n', b's', 0]);
    let answer = DnsAnswer::parse(&raw, 0).unwrap();
    assert_eq!(answer.get_data(&raw), Data::Ns("ns.".to_string()));
    let raw = answer_bytes(5, 1, &[1, b'c', 0]);
    let answer = DnsAnswer::parse(&raw, 0).unwrap();
    assert_eq!(answer.get_data(&raw), Data::Cname("c.".to_string()));
    let raw = answer_bytes(12, 1, &[1, b'p', 0]);
    let answer = DnsAnswer::parse(&raw, 0).unwrap();
    assert_eq!(answer.get_data(&raw), Data::Ptr("p.".to_string()));
}

#[test]
fn mx_payload() {
    let raw = answer_bytes(15, 1, &[0x00, 0x0a, 4, b'm', b'a', b'i', b'l', 0]);
    let answer = DnsAnswer::parse(&raw, 0).unwrap();
    assert_eq!(answer.get_data(&raw), Data::Mx(10, "mail.".to_string()));
    // below the three-byte minimum: invalid, not fatal
    let short = answer_bytes(15, 1, &[0x00, 0x0a]);
    let answer = DnsAnswer::parse(&short, 0).unwrap();
    assert_eq!(answer.get_data(&short), Data::Invalid(vec![0x00, 0x0a]));
}

#[test]
fn srv_payload() {
    let raw = answer_bytes(
        33,
        1,
        &[0x00, 0x01, 0x00, 0x02, 0x1f, 0x90, 3, b's', b'r', b'v', 0],
    );
    let answer = DnsAnswer::parse(&raw, 0).unwrap();
    assert_eq!(answer.get_data(&raw), Data::Srv(1, 2, 8080, "srv.".to_string()));
}

#[test]
fn soa_payload() {
    let mut rdata = vec![2, b'n', b's', 0, 4, b'm', b'a', b'i', b'l', 0];
    rdata.extend_from_slice(&[0x00, 0x00, 0x00, 0x01]); // serial
    rdata.extend_from_slice(&[0x00, 0x00, 0x00, 0x02]); // refresh
    rdata.extend_from_slice(&[0x00, 0x00, 0x00, 0x03]); // retry
    rdata.extend_from_slice(&[0x00, 0x00, 0x00, 0x04]); // expire
    rdata.extend_from_slice(&[0x00, 0x00, 0x00, 0x05]); // minimum
    let raw = answer_bytes(6, 1, &rdata);
    let answer = DnsAnswer::parse(&raw, 0).unwrap();
    assert_eq!(
        answer.get_data(&raw),
        Data::Soa("ns.".to_string(), "mail.".to_string(), 1, 2, 3, 4, 5)
    );
    // one byte of payload is far below the 22-byte minimum
    let short = answer_bytes(6, 1, &[7]);
    let answer = DnsAnswer::parse(&short, 0).unwrap();
    assert_eq!(answer.get_data(&short), Data::Invalid(vec![7]));
}

#[test]
fn txt_payload() {
    let raw = answer_bytes(16, 1, &[3, b'f', b'o', b'o', 2, b'h', b'i']);
    let answer = DnsAnswer::parse(&raw, 0).unwrap();
    assert_eq!(
        answer.get_data(&raw),
        Data::Txt(vec!["foo".to_string(), "hi".to_string()])
    );
    // a length byte pointing past the payload: invalid, not fatal
    let short = answer_bytes(16, 1, &[9, b'f']);
    let answer = DnsAnswer::parse(&short, 0).unwrap();
    assert_eq!(answer.get_data(&short), Data::Invalid(vec![9, b'f']));
}

#[test]
fn type_and_class_codes() {
    assert_eq!(Type::from(1), Type::A);
    assert_eq!(Type::from(2), Type::Ns);
    assert_eq!(Type::from(5), Type::Cname);
    assert_eq!(Type::from(6), Type::Soa);
    assert_eq!(Type::from(12), Type::Ptr);
    assert_eq!(Type::from(15), Type::Mx);
    assert_eq!(Type::from(16), Type::Txt);
    assert_eq!(Type::from(28), Type::Aaaa);
    assert_eq!(Type::from(33), Type::Srv);
    assert_eq!(Type::from(255), Type::All);
    assert_eq!(Type::from(1000), Type::Unknown(1000));
    assert_eq!(Class::from(1), Class::In);
    assert_eq!(Class::from(2), Class::Cs);
    assert_eq!(Class::from(3), Class::Ch);
    assert_eq!(Class::from(4), Class::Hs);
    assert_eq!(Class::from(255), Class::Unknown(255));
}

#[test]
fn error_messages() {
    assert_eq!(DnsError::PacketLength.message(), "invalid length of packet");
    assert_eq!(DnsError::RecordLength.message(), "invalid length of record");
    assert_eq!(
        DnsError::DataLength.message(),
        "invalid length of data field in record"
    );
    assert_eq!(
        DnsError::CharactersLength.message(),
        "invalid length of character string"
    );
    assert_eq!(
        DnsError::CharactersUtf8.message(),
        "invalid utf8 in character string"
    );
    assert_eq!(DnsError::LabelLength.message(), "invalid length of label");
    assert_eq!(
        DnsError::LabelReference.message(),
        "invalid reference in label"
    );
    assert_eq!(DnsError::LabelUtf8.message(), "invalid utf8 in label");
}

#[test]
fn placeholder_for_unreadable_record_name() {
    // framing succeeds, but the name's text is not UTF-8
    let mut raw = vec![1, 0xff, 0];
    raw.extend_from_slice(&[0x00, 0x01, 0x00, 0x01]);
    let record = DnsRecord::parse(&raw, 0).unwrap();
    assert_eq!(record.get_name(&raw), "<error>");
}
