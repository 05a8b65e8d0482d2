use weekend_dns::deserialization::{pop_u16, pop_u8, DecodeError, FromBytes};
use weekend_dns::domain_name::DomainName;
use weekend_dns::packet::{flag_label, Flags, Header, Packet, Question};
use weekend_dns::record::{Class, Content, Kind, Record};
use weekend_dns::serialization::push_u16;

fn example_com() -> Vec<u8> {
    vec![7, b'e', b'x', b'a', b'm', b'p', b'l', b'e', 3, b'c', b'o', b'm', 0]
}

fn header(id: u16, flags: u16, counts: [u16; 4]) -> Vec<u8> {
    let mut buf = Vec::new();
    push_u16(&mut buf, id);
    push_u16(&mut buf, flags);
    for c in counts {
        push_u16(&mut buf, c);
    }
    buf
}

#[test]
fn question_example_com_bytes() {
    let q = Question::build("example.com", Kind::A);
    assert_eq!(
        q.to_bytes(),
        vec![
            0x07, 0x65, 0x78, 0x61, 0x6d, 0x70, 0x6c, 0x65, 0x03, 0x63, 0x6f, 0x6d, 0x00, 0x00,
            0x01, 0x00, 0x01
        ]
    );
}

#[test]
fn header_only_message_decodes_empty() {
    let buf = vec![0x12, 0x34, 0x01, 0x00, 0, 0, 0, 0, 0, 0, 0, 0];
    let p = Packet::from_bytes(&buf).unwrap();
    assert_eq!(p.id, 0x1234);
    assert_eq!(p.flags, 0x0100);
    assert!(p.questions.is_empty());
    assert!(p.answers.is_empty());
    assert!(p.authorities.is_empty());
    assert!(p.additionals.is_empty());
}

#[test]
fn a_record_four_bytes_is_ipv4() {
    let mut buf = example_com();
    push_u16(&mut buf, 1);
    push_u16(&mut buf, 1);
    buf.extend_from_slice(&[0, 0, 0x0e, 0x10]);
    push_u16(&mut buf, 4);
    buf.extend_from_slice(&[0xC6, 0x29, 0x00, 0x04]);
    let mut cursor = 0;
    let r = Record::from_bytes(&buf, &mut cursor).unwrap();
    assert_eq!(cursor, buf.len());
    assert_eq!(r.name.as_str(), "example.com");
    assert_eq!(r.kind, Kind::A);
    assert_eq!(r.class, Class::Internet);
    assert_eq!(r.ttl, 3600);
    assert!(matches!(r.data, Content::IPv4([198, 41, 0, 4])));
}

#[test]
fn www_then_pointer_to_example_com() {
    // example.com occupies offsets 0 to 12; www and a pointer to 0 follow it
    let mut msg = example_com();
    msg.extend_from_slice(&[3, b'w', b'w', b'w', 0xC0, 0x00]);
    let mut cursor = 13;
    let name = DomainName::from_bytes(&msg, &mut cursor).unwrap();
    assert_eq!(name.as_str(), "www.example.com");
    assert_eq!(cursor, 19);
}

#[test]
fn query_round_trip() {
    let p = Packet::new()
        .with_id(0xbeef)
        .with_flags(Flags::new().with_recusion())
        .with_question(Question::build("example.com", Kind::AAAA))
        .with_question(Question::new().with_domain_name("a.b.c").with_kind(Kind::MX));
    let bytes = p.to_bytes();
    let back = Packet::from_bytes(&bytes).unwrap();
    assert_eq!(back.id, 0xbeef);
    assert_eq!(back.flags, 0x0100);
    assert_eq!(back.questions.len(), 2);
    assert_eq!(back.questions[0].name().as_str(), "example.com");
    assert_eq!(back.questions[0].kind(), Kind::AAAA);
    assert_eq!(back.questions[0].class(), Class::Internet);
    assert_eq!(back.questions[1].name().as_str(), "a.b.c");
    assert_eq!(back.questions[1].kind(), Kind::MX);
    assert!(back.answers.is_empty());
    assert!(back.authorities.is_empty());
    assert!(back.additionals.is_empty());
    assert_eq!(back.to_bytes(), bytes);
}

#[test]
fn every_short_prefix_is_truncated() {
    let p = Packet::new()
        .with_id(1)
        .with_question(Question::build("www.example.org", Kind::TXT));
    let bytes = p.to_bytes();
    assert!(Packet::from_bytes(&bytes).is_ok());
    for n in 0..bytes.len() {
        assert_eq!(
            Packet::from_bytes(&bytes[..n]).unwrap_err(),
            DecodeError::TruncatedBuffer,
            "prefix of length {}",
            n
        );
    }
}

#[test]
fn truncated_prefixes_of_message_with_records() {
    let mut buf = header(9, 0x8180, [0, 1, 0, 0]);
    buf.extend_from_slice(&example_com());
    push_u16(&mut buf, 5);
    push_u16(&mut buf, 1);
    buf.extend_from_slice(&[0, 0, 0, 60]);
    push_u16(&mut buf, 6);
    buf.extend_from_slice(&[3, b'w', b'w', b'w', 0xC0, 12]);
    let p = Packet::from_bytes(&buf).unwrap();
    match &p.answers[0].data {
        Content::DomainName(d) => assert_eq!(d.as_str(), "www.example.com"),
        other => panic!("unexpected {:?}", other),
    }
    for n in 0..buf.len() {
        assert_eq!(Packet::from_bytes(&buf[..n]).unwrap_err(), DecodeError::TruncatedBuffer);
    }
}

#[test]
fn pointer_to_itself_is_invalid() {
    let buf = vec![0xC0, 0x00];
    let mut cursor = 0;
    assert_eq!(
        DomainName::from_bytes(&buf, &mut cursor).unwrap_err(),
        DecodeError::InvalidCompressionPointer
    );
}

#[test]
fn pointer_forward_is_invalid() {
    let mut buf = vec![1, b'a', 0xC0, 0x05, 0, 1, b'b', 0];
    let mut cursor = 0;
    assert_eq!(
        DomainName::from_bytes(&buf, &mut cursor).unwrap_err(),
        DecodeError::InvalidCompressionPointer
    );
    // a pointer past the name's own origin but before the pointer itself
    buf = vec![0, 1, b'a', 0xC0, 0x02];
    cursor = 1;
    assert_eq!(
        DomainName::from_bytes(&buf, &mut cursor).unwrap_err(),
        DecodeError::InvalidCompressionPointer
    );
}

#[test]
fn pointer_only_name_has_leading_dot() {
    let mut buf = example_com();
    buf.extend_from_slice(&[0xC0, 0x00]);
    let mut cursor = 13;
    let name = DomainName::from_bytes(&buf, &mut cursor).unwrap();
    assert_eq!(name.as_str(), ".example.com");
    assert_eq!(cursor, 15);
}

#[test]
fn chained_pointers_are_followed() {
    let mut buf = example_com();
    buf.extend_from_slice(&[3, b'w', b'w', b'w', 0xC0, 0x00]);
    buf.extend_from_slice(&[2, b'm', b'x', 0xC0, 13]);
    let mut cursor = 19;
    let name = DomainName::from_bytes(&buf, &mut cursor).unwrap();
    assert_eq!(name.as_str(), "mx.www.example.com");
    assert_eq!(cursor, buf.len());
}

fn record_with(kind: u16, rdlength: u16, rdata: &[u8]) -> Vec<u8> {
    let mut buf = vec![0];
    push_u16(&mut buf, kind);
    push_u16(&mut buf, 1);
    buf.extend_from_slice(&[0xff, 0xff, 0xff, 0xff]);
    push_u16(&mut buf, rdlength);
    buf.extend_from_slice(rdata);
    buf
}

#[test]
fn aaaa_with_wrong_length_is_mismatch() {
    let buf = record_with(28, 4, &[0u8; 16]);
    let mut cursor = 0;
    assert_eq!(Record::from_bytes(&buf, &mut cursor).unwrap_err(), DecodeError::RDLengthMismatch);
}

#[test]
fn ns_name_shorter_than_length_is_mismatch() {
    let buf = record_with(2, 5, &[1, b'a', 0, 0, 0]);
    let mut cursor = 0;
    assert_eq!(Record::from_bytes(&buf, &mut cursor).unwrap_err(), DecodeError::RDLengthMismatch);
}

#[test]
fn aaaa_record_is_ipv6() {
    let rdata = [0x20, 0x01, 0x05, 0x03, 0xba, 0x3e, 0, 0, 0, 0, 0, 0, 0, 2, 0, 0x30];
    let buf = record_with(28, 16, &rdata);
    let mut cursor = 0;
    let r = Record::from_bytes(&buf, &mut cursor).unwrap();
    assert_eq!(r.ttl, -1);
    assert!(matches!(r.data, Content::IPv6([0x2001, 0x0503, 0xba3e, 0, 0, 0, 2, 0x30])));
}

#[test]
fn a_record_of_eight_bytes_is_opaque() {
    let buf = record_with(1, 8, &[1, 2, 3, 4, 5, 6, 7, 8]);
    let mut cursor = 0;
    let r = Record::from_bytes(&buf, &mut cursor).unwrap();
    match r.data {
        Content::Other(b) => assert_eq!(b, vec![1, 2, 3, 4, 5, 6, 7, 8]),
        other => panic!("unexpected {:?}", other),
    }
}

#[test]
fn txt_and_unknown_data() {
    let buf = record_with(16, 3, b"hi!");
    let mut cursor = 0;
    match Record::from_bytes(&buf, &mut cursor).unwrap().data {
        Content::Text(t) => assert_eq!(t, "hi!"),
        other => panic!("unexpected {:?}", other),
    }
    let buf = record_with(15, 2, &[0, 10]);
    cursor = 0;
    match Record::from_bytes(&buf, &mut cursor).unwrap().data {
        Content::Other(b) => assert_eq!(b, vec![0, 10]),
        other => panic!("unexpected {:?}", other),
    }
}

#[test]
fn soa_reads_leading_name_only() {
    let buf = record_with(6, 3, &[1, b'z', 0]);
    let mut cursor = 0;
    match Record::from_bytes(&buf, &mut cursor).unwrap().data {
        Content::DomainName(d) => assert_eq!(d.as_str(), "z"),
        other => panic!("unexpected {:?}", other),
    }
}

#[test]
fn unknown_kind_and_class_fail() {
    let mut buf = header(1, 0, [1, 0, 0, 0]);
    buf.push(0);
    push_u16(&mut buf, 99);
    push_u16(&mut buf, 1);
    assert_eq!(Packet::from_bytes(&buf).unwrap_err(), DecodeError::UnknownRecordKind);
    let mut buf = header(1, 0, [1, 0, 0, 0]);
    buf.push(0);
    push_u16(&mut buf, 1);
    push_u16(&mut buf, 3);
    assert_eq!(Packet::from_bytes(&buf).unwrap_err(), DecodeError::UnknownClass);
}

#[test]
fn counts_beyond_data_are_truncated() {
    let buf = header(1, 0, [0, 2, 0, 0]);
    assert_eq!(Packet::from_bytes(&buf).unwrap_err(), DecodeError::TruncatedBuffer);
}

#[test]
fn header_round_trip() {
    let buf = header(0xabcd, 0x8180, [1, 2, 3, 4]);
    let mut cursor = 0;
    let h = Header::from_bytes(&buf, &mut cursor).unwrap();
    assert_eq!(cursor, 12);
    assert_eq!(
        h,
        Header { id: 0xabcd, flags: 0x8180, questions: 1, answers: 2, authorities: 3, additionals: 4 }
    );
    assert_eq!(h.to_bytes(), buf);
    let mut cursor = 1;
    assert_eq!(Header::from_bytes(&buf[..12], &mut cursor).unwrap_err(), DecodeError::TruncatedBuffer);
}

#[test]
fn domain_name_encoding() {
    assert_eq!(DomainName::new("a.bc").to_bytes(), vec![1, b'a', 2, b'b', b'c', 0]);
    assert_eq!(DomainName::empty().to_bytes(), vec![0, 0]);
    assert_eq!(DomainName::empty().as_str(), "");
}

#[test]
fn byte_cursor_reads() {
    let buf = [0x01, 0x02, 0x03];
    let mut c = 0;
    assert_eq!(pop_u16(&buf, &mut c), Some(0x0102));
    assert_eq!(c, 2);
    assert_eq!(pop_u16(&buf, &mut c), None);
    assert_eq!(pop_u8(&buf, &mut c), Some(3));
    assert_eq!(c, 3);
    assert_eq!(pop_u8(&buf, &mut c), None);
    let mut c = 0;
    assert_eq!(char::from_bytes(&[0x41, 0xe9], &mut c), Ok('A'));
    assert_eq!(char::from_bytes(&[0x41, 0xe9], &mut c), Ok('\u{e9}'));
    assert_eq!(char::from_bytes(&[0x41, 0xe9], &mut c), Err(DecodeError::TruncatedBuffer));
    let mut c = 0;
    assert_eq!(u8::from_bytes(&[7], &mut c), Ok(7));
    let mut c = 0;
    assert_eq!(i32::from_bytes(&[0xff, 0xff, 0xff, 0xfe], &mut c), Ok(-2));
    assert_eq!(c, 4);
}

#[test]
fn push_u16_is_big_endian() {
    let mut buf = vec![9];
    push_u16(&mut buf, 0x1234);
    assert_eq!(buf, vec![9, 0x12, 0x34]);
}

#[test]
fn kinds_and_classes() {
    assert_eq!(Kind::from_u16(28), Some(Kind::AAAA));
    assert_eq!(Kind::from_u16(16), Some(Kind::TXT));
    assert_eq!(Kind::from_u16(17), None);
    assert_eq!(Kind::CNAME.to_u16(), 5);
    assert_eq!(Class::from_u16(1), Some(Class::Internet));
    assert_eq!(Class::from_u16(2), None);
    assert_eq!(Class::Internet.to_u16(), 1);
}

#[test]
fn flags_and_labels() {
    let f = Flags::new().with_recusion();
    let p = Packet::new().with_flags(f);
    assert_eq!(p.flags, 0x0100);
    assert_eq!(flag_label(p.flags, 8, "rd-", "RD-"), "RD-");
    assert_eq!(flag_label(p.flags, 7, "tc-", "TC-"), "tc-");
    assert!(p.questions.is_empty());
}
