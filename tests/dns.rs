use erbium::dns::{EdnsParser, PktParser, RData, RR_OPT};

fn header(qid: u16, flag1: u8, flag2: u8, qd: u16, an: u16, ns: u16, ar: u16) -> Vec<u8> {
    let mut v = Vec::new();
    for x in [qid, 0, qd, an, ns, ar] {
        v.extend_from_slice(&x.to_be_bytes());
    }
    v[2] = flag1;
    v[3] = flag2;
    v
}

fn question(v: &mut Vec<u8>) {
    v.extend_from_slice(&[7, b'e', b'x', b'a', b'm', b'p', b'l', b'e', 3, b'c', b'o', b'm', 0]);
    v.extend_from_slice(&[0, 1, 0, 1]);
}

fn opt_record(v: &mut Vec<u8>) {
    // Root name, type OPT, payload size 4096, TTL with the DO bit, one option.
    v.extend_from_slice(&[0, 0, 41, 0x10, 0x00, 0, 0, 0x80, 0, 0, 8]);
    v.extend_from_slice(&[0, 10, 0, 4, 1, 2, 3, 4]);
}

#[test]
fn parses_query_with_edns() {
    let mut v = header(0x1234, 0x01, 0x00, 1, 0, 0, 1);
    question(&mut v);
    opt_record(&mut v);
    let pkt = PktParser::new(&v).get_dns().unwrap();
    assert_eq!(pkt.qid, 0x1234);
    assert!(pkt.rd);
    assert!(!pkt.qr);
    assert_eq!(pkt.opcode, 0);
    let labels = &pkt.question.qdomain.labels;
    assert_eq!(labels, &vec![b"example".to_vec(), b"com".to_vec()]);
    assert_eq!(pkt.question.qtype.0, 1);
    assert_eq!(pkt.question.qclass.0, 1);
    assert_eq!(pkt.bufsize, 4096);
    assert_eq!(pkt.edns_ver, Some(0));
    assert!(pkt.edns_do);
    assert!(pkt.additional.is_empty());
    let edns = pkt.edns.unwrap();
    assert_eq!(edns.other.len(), 1);
    assert_eq!(edns.other[0].code, 10);
    assert_eq!(edns.other[0].data, vec![1, 2, 3, 4]);
}

#[test]
fn parses_compressed_answer() {
    let mut v = header(0xBEEF, 0x81, 0x80, 1, 1, 0, 0);
    question(&mut v);
    v.extend_from_slice(&[0xC0, 0x0C, 0, 1, 0, 1, 0, 0, 1, 44, 0, 4, 93, 184, 216, 34]);
    let pkt = PktParser::new(&v).get_dns().unwrap();
    assert!(pkt.qr);
    assert!(pkt.ra);
    assert_eq!(pkt.answer.len(), 1);
    let rr = &pkt.answer[0];
    assert_eq!(rr.domain.labels, vec![b"example".to_vec(), b"com".to_vec()]);
    assert_eq!(rr.ttl, 300);
    match &rr.rdata {
        RData::Other(d) => assert_eq!(d, &vec![93, 184, 216, 34]),
        _ => panic!("expected raw record data"),
    }
    assert_eq!(pkt.bufsize, 512);
    assert!(pkt.edns.is_none());
    assert_eq!(pkt.rcode, 0);
}

#[test]
fn wrong_question_count_is_an_error() {
    let mut v = header(1, 0, 0, 2, 0, 0, 0);
    question(&mut v);
    question(&mut v);
    let e = PktParser::new(&v).get_dns().err().unwrap();
    assert!(e.starts_with("Incorrect number of questions (2"));
}

#[test]
fn truncated_packet_is_an_error() {
    let mut v = header(1, 0, 0, 1, 0, 0, 0);
    question(&mut v);
    v.truncate(v.len() - 3);
    assert!(PktParser::new(&v).get_dns().is_err());
    assert!(PktParser::new(&[0x12]).get_dns().is_err());
}

#[test]
fn bad_compression_pointer_is_an_error() {
    let mut v = header(1, 0, 0, 1, 0, 0, 0);
    v.extend_from_slice(&[0xC0, 0x05, 0, 1, 0, 1]);
    let e = PktParser::new(&v).get_dns().err().unwrap();
    assert_eq!(e, "Bad compression offset");
}

#[test]
fn opt_records_leave_the_additional_section() {
    let mut v = header(7, 0, 0, 1, 0, 0, 2);
    question(&mut v);
    opt_record(&mut v);
    v.extend_from_slice(&[0, 0, 16, 0, 1, 0, 0, 0, 5, 0, 2, 1, b'x']);
    let pkt = PktParser::new(&v).get_dns().unwrap();
    assert_eq!(pkt.additional.len(), 1);
    assert_ne!(pkt.additional[0].rrtype.0, RR_OPT);
    assert_eq!(pkt.additional[0].rrtype.0, 16);
}

#[test]
fn edns_options_truncated() {
    let body = [0u8, 10, 0, 4, 1, 2];
    assert_eq!(EdnsParser::new(&body).get_options().err().unwrap(), "Truncated EDNS Option");
    let ok = [0u8, 10, 0, 1, 9, 0, 11, 0, 0];
    let d = EdnsParser::new(&ok).get_options().unwrap();
    assert_eq!(d.other.len(), 2);
    assert_eq!(d.other[1].code, 11);
    assert!(d.other[1].data.is_empty());
}

#[test]
fn minimal_query_parses() {
    let v = [0x12, 0x34, 0x01, 0x00, 0x00, 0x01, 0, 0, 0, 0, 0, 0, 0x00, 0x00, 0x01, 0x00, 0x01];
    let pkt = PktParser::new(&v).get_dns().unwrap();
    assert_eq!(pkt.qid, 0x1234);
    assert!(pkt.rd && !pkt.tc && !pkt.aa && !pkt.qr && !pkt.cd && !pkt.ad && !pkt.ra);
    assert_eq!(pkt.opcode, 0);
    assert_eq!(pkt.rcode, 0);
    assert_eq!(pkt.bufsize, 512);
    assert!(pkt.edns.is_none() && pkt.edns_ver.is_none() && !pkt.edns_do);
    assert!(pkt.question.qdomain.labels.is_empty());
    assert_eq!(pkt.question.qtype.0, 1);
    assert_eq!(pkt.question.qclass.0, 1);
    assert!(pkt.answer.is_empty() && pkt.nameserver.is_empty() && pkt.additional.is_empty());
}

#[test]
fn pointer_reuses_earlier_name() {
    let v = [3, b'f', b'o', b'o', 0, 0xC0, 0x00];
    let mut p = PktParser::new(&v);
    assert_eq!(p.get_domain().unwrap().labels, vec![b"foo".to_vec()]);
    assert_eq!(p.get_domain().unwrap().labels, vec![b"foo".to_vec()]);
    assert_eq!(p.get_domain().err().unwrap(), "Truncated packet");
}

#[test]
fn reserved_label_types_are_errors() {
    assert_eq!(PktParser::new(&[0x40, 0]).get_domain().err().unwrap(), "Unsupported label type");
    assert_eq!(PktParser::new(&[0x80, 0]).get_domain().err().unwrap(), "Unsupported label type");
}

#[test]
fn record_running_past_the_end_is_an_error() {
    let mut v = header(1, 0, 0, 1, 1, 0, 0);
    question(&mut v);
    v.extend_from_slice(&[0xC0, 0x0C, 0, 1, 0, 1, 0, 0, 1, 44, 0, 9, 1, 2, 3]);
    assert!(PktParser::new(&v).get_dns().is_err());
}

#[test]
fn edns_extends_rcode() {
    let mut v = header(7, 0, 0x03, 1, 0, 0, 1);
    question(&mut v);
    // OPT with extended rcode 1, version 2, no DO bit, payload 1232, no options.
    v.extend_from_slice(&[0, 0, 41, 0x04, 0xD0, 1, 2, 0, 0, 0, 0]);
    let pkt = PktParser::new(&v).get_dns().unwrap();
    assert_eq!(pkt.rcode, 0x103);
    assert_eq!(pkt.edns_ver, Some(2));
    assert!(!pkt.edns_do);
    assert_eq!(pkt.bufsize, 1232);
    assert!(pkt.edns.unwrap().other.is_empty());
}

#[test]
fn records_keep_names_and_data() {
    let mut v = header(9, 0, 0, 1, 0, 1, 1);
    question(&mut v);
    // Authority: SOA for the question's name.
    v.extend_from_slice(&[0xC0, 0x0C, 0, 6, 0, 1, 0, 0, 0, 60, 0, 30]);
    v.extend_from_slice(&[2, b'n', b's', 0xC0, 0x0C, 0]);
    for x in [1u32, 2, 3, 4, 5] {
        v.extend_from_slice(&x.to_be_bytes());
    }
    // Additional: one TXT record after the SOA.
    v.extend_from_slice(&[0, 0, 16, 0, 1, 0, 0, 0, 5, 0, 2, 1, b'x']);
    let pkt = PktParser::new(&v).get_dns().unwrap();
    assert_eq!(pkt.nameserver.len(), 1);
    match &pkt.nameserver[0].rdata {
        RData::SOA(s) => {
            assert_eq!(s.mname.labels, vec![b"ns".to_vec(), b"example".to_vec(), b"com".to_vec()]);
            assert!(s.rname.labels.is_empty());
            assert_eq!((s.serial, s.refresh, s.retry, s.expire, s.minimum), (1, 2, 3, 4, 5));
        }
        _ => panic!("expected SOA data"),
    }
    match &pkt.additional[0].rdata {
        RData::Other(d) => assert_eq!(d, &vec![1, b'x']),
        _ => panic!("expected raw record data"),
    }
}

#[test]
fn bad_pointer_mid_name_reports_its_error() {
    let v = [3, b'f', b'o', b'o', 0xC0, 0x20];
    assert_eq!(PktParser::new(&v).get_domain().err().unwrap(), "Bad compression offset");
    let w = [3, b'f', b'o', b'o', 0x40];
    assert_eq!(PktParser::new(&w).get_domain().err().unwrap(), "Unsupported label type");
}
