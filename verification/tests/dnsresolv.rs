use miaow::dnsparser::Resource;
use miaow::dnsresolv::{
    create_dnsanswer, DnsAnswer, DnsResolv, Event, Step, DATAGRAM_MAX, GROUP, GROUP_PORT,
    TIMEOUT_MS,
};
use miaow::wire::ByteCursor;
use miaow::{DnsError, Malformation};

fn captured_response() -> Vec<u8> {
    vec![
        0x00, 0x2a, 0x84, 0x00, 0x00, 0x01, 0x00, 0x05, 0x00, 0x00, 0x00, 0x00, 0x05, 0x5f, 0x68,
        0x74, 0x74, 0x70, 0x04, 0x5f, 0x74, 0x63, 0x70, 0x05, 0x6c, 0x6f, 0x63, 0x61, 0x6c, 0x00,
        0x00, 0x0c, 0x00, 0x01, 0xc0, 0x0c, 0x00, 0x0c, 0x00, 0x01, 0x00, 0x00, 0x00, 0x0a, 0x00,
        0x0a, 0x07, 0x6d, 0x69, 0x61, 0x6f, 0x77, 0x5f, 0x31, 0xc0, 0x0c, 0xc0, 0x2e, 0x00, 0x10,
        0x00, 0x01, 0x00, 0x00, 0x00, 0x0a, 0x00, 0x1b, 0x11, 0x66, 0x69, 0x6c, 0x65, 0x3d, 0x70,
        0x61, 0x74, 0x68, 0x2f, 0x74, 0x6f, 0x2f, 0x66, 0x69, 0x6c, 0x65, 0x08, 0x75, 0x73, 0x65,
        0x72, 0x3d, 0x63, 0x65, 0x64, 0xc0, 0x2e, 0x00, 0x21, 0x00, 0x01, 0x00, 0x00, 0x00, 0x0a,
        0x00, 0x0e, 0x00, 0x00, 0x00, 0x00, 0x1f, 0x90, 0x05, 0x6c, 0x69, 0x6e, 0x75, 0x78, 0xc0,
        0x17, 0xc0, 0x71, 0x00, 0x1c, 0x00, 0x01, 0x00, 0x00, 0x00, 0x0a, 0x00, 0x10, 0xfe, 0x80,
        0x00, 0x00, 0x00, 0x00, 0x00, 0x00, 0x47, 0x4d, 0xd7, 0x46, 0x54, 0x16, 0xee, 0xbb, 0xc0,
        0x71, 0x00, 0x01, 0x00, 0x01, 0x00, 0x00, 0x00, 0x0a, 0x00, 0x04, 0x0a, 0x74, 0x00, 0x19,
    ]
}

/// A response with the given id and answer count, the question `a.b`, and
/// the given bytes behind it.
fn response(id: u16, ancount: u16, records: &[u8]) -> Vec<u8> {
    let mut v = vec![(id >> 8) as u8, id as u8, 0x84, 0x00, 0x00, 0x01];
    v.push((ancount >> 8) as u8);
    v.push(ancount as u8);
    v.extend_from_slice(&[0, 0, 0, 0]);
    v.extend_from_slice(&[1, b'a', 1, b'b', 0]);
    v.extend_from_slice(&[0x00, 0x0c, 0x00, 0x01]);
    v.extend_from_slice(records);
    v
}

fn record(rtype: u16, rdata: &[u8]) -> Vec<u8> {
    let mut v = vec![0xc0, 0x0c, (rtype >> 8) as u8, rtype as u8, 0x00, 0x01, 0, 0, 0, 10];
    v.push((rdata.len() >> 8) as u8);
    v.push(rdata.len() as u8);
    v.extend_from_slice(rdata);
    v
}

#[test]
fn tst_parseanswer() {
    let resolv = DnsResolv::with_id(42);
    let v: Vec<u8> = vec![
        0x00,
        0x2a,
        0x84,
        0x00,
        0x00,
        0x01,
        0x00,
        0x05,
        0x00,
        0x00,
        0x00,
        0x00,
        0x05,
        0x5f,
        0x68,
        0x74,
        0x74,
        0x70,
        0x04,
        0x5f,
        0x74,
        0x63,
        0x70,
        0x05,
        0x6c,
        0x6f,
        0x63,
        0x61,
        0x6c,
        0x00,
        0x00,
        0x0c,
        0x00,
        0x01,
        0xc0,
        0x0c,
        0x00,
        0x0c,
        0x00,
        0x01,
        0x00,
        0x00,
        0x00,
        0x0a,
        0x00,
        0x0a,
        0x07,
        0x6d,
        0x69,
        0x61,
        0x6f,
        0x77,
        0x5f,
        0x31,
        0xc0,
        0x0c,
        0xc0,
        0x2e,
        0x00,
        0x10,
        0x00,
        0x01,
        0x00,
        0x00,
        0x00,
        0x0a,
        0x00,
        0x1b,
        0x11,
        0x66,
        0x69,
        0x6c,
        0x65,
        0x3d,
        0x70,
        0x61,
        0x74,
        0x68,
        0x2f,
        0x74,
        0x6f,
        0x2f,
        0x66,
        0x69,
        0x6c,
        0x65,
        0x08,
        0x75,
        0x73,
        0x65,
        0x72,
        0x3d,
        0x63,
        0x65,
        0x64,
        0xc0,
        0x2e,
        0x00,
        0x21,
        0x00,
        0x01,
        0x00,
        0x00,
        0x00,
        0x0a,
        0x00,
        0x0e,
        0x00,
        0x00,
        0x00,
        0x00,
        0x1f,
        0x90,
        0x05,
        0x6c,
        0x69,
        0x6e,
        0x75,
        0x78,
        0xc0,
        0x17,
        0xc0,
        0x71,
        0x00,
        0x1c,
        0x00,
        0x01,
        0x00,
        0x00,
        0x00,
        0x0a,
        0x00,
        0x10,
        0xfe,
        0x80,
        0x00,
        0x00,
        0x00,
        0x00,
        0x00,
        0x00,
        0x47,
        0x4d,
        0xd7,
        0x46,
        0x54,
        0x16,
        0xee,
        0xbb,
        0xc0,
        0x71,
        0x00,
        0x01,
        0x00,
        0x01,
        0x00,
        0x00,
        0x00,
        0x0a,
        0x00,
        0x04,
        0x0a,
        0x74,
        0x00,
        0x19,
    ];
    let answers = resolv.parse_answers(&v).unwrap();
    assert_eq!(5, answers.len());
    assert_eq!(
        1,
        answers
            .iter()
            .filter(|x| match **x {
                DnsAnswer::A(_) => true,
                _ => false,
            })
            .count()
    );
    assert_eq!(
        1,
        answers
            .iter()
            .filter(|x| match **x {
                DnsAnswer::UNKNOWN(_) => true,
                _ => false,
            })
            .count()
    ); //AAAA
    assert_eq!(
        1,
        answers
            .iter()
            .filter(|x| match **x {
                DnsAnswer::SRV(_) => true,
                _ => false,
            })
            .count()
    );
    assert_eq!(
        1,
        answers
            .iter()
            .filter(|x| match **x {
                DnsAnswer::TXT(_) => true,
                _ => false,
            })
            .count()
    );
    assert_eq!(
        1,
        answers
            .iter()
            .filter(|x| match **x {
                DnsAnswer::PTR(_) => true,
                _ => false,
            })
            .count()
    );
}

#[test]
fn parse_answers_keeps_order_and_data() {
    let resolv = DnsResolv::with_id(42);
    let answers = resolv.parse_answers(&captured_response()).unwrap();
    let expected = vec![
        DnsAnswer::PTR(vec![0x07, 0x6d, 0x69, 0x61, 0x6f, 0x77, 0x5f, 0x31, 0xc0, 0x0c]),
        DnsAnswer::TXT(vec![
            0x11, 0x66, 0x69, 0x6c, 0x65, 0x3d, 0x70, 0x61, 0x74, 0x68, 0x2f, 0x74, 0x6f, 0x2f,
            0x66, 0x69, 0x6c, 0x65, 0x08, 0x75, 0x73, 0x65, 0x72, 0x3d, 0x63, 0x65, 0x64,
        ]),
        DnsAnswer::SRV(vec![
            0x00, 0x00, 0x00, 0x00, 0x1f, 0x90, 0x05, 0x6c, 0x69, 0x6e, 0x75, 0x78, 0xc0, 0x17,
        ]),
        DnsAnswer::UNKNOWN(vec![
            0xfe, 0x80, 0x00, 0x00, 0x00, 0x00, 0x00, 0x00, 0x47, 0x4d, 0xd7, 0x46, 0x54, 0x16,
            0xee, 0xbb,
        ]),
        DnsAnswer::A(vec![0x0a, 0x74, 0x00, 0x19]),
    ];
    assert_eq!(expected, answers);
}

#[test]
fn captured_response_resolves_to_the_share() {
    let resolv = DnsResolv::with_id(42);
    let answers = resolv.parse_answers(&captured_response()).unwrap();
    let resource = Resource::parse_dns(answers).unwrap();
    assert_eq!("10.116.0.25", resource.host());
    assert_eq!(8080, resource.port());
    assert_eq!("ced", resource.user());
    assert_eq!("path/to/file", resource.file());
}

#[test]
fn parse_answers_refuses_another_id() {
    let resolv = DnsResolv::with_id(43);
    assert_eq!(resolv.parse_answers(&captured_response()), Err(DnsError::IdMismatch));
    assert_eq!(resolv.parse_answers(&[0x00, 0x2a]), Err(DnsError::IdMismatch));
}

#[test]
fn parse_answers_without_answers_is_empty() {
    let resolv = DnsResolv::with_id(7);
    assert_eq!(resolv.parse_answers(&response(7, 0, &[])), Ok(Vec::new()));
    let trailing = response(7, 0, &record(1, &[1, 2, 3, 4]));
    assert_eq!(resolv.parse_answers(&trailing), Ok(Vec::new()));
}

#[test]
fn parse_answers_maps_the_record_types() {
    let resolv = DnsResolv::with_id(0xbeef);
    let mut records = Vec::new();
    records.extend_from_slice(&record(1, &[1, 2, 3, 4]));
    records.extend_from_slice(&record(12, &[5]));
    records.extend_from_slice(&record(16, &[]));
    records.extend_from_slice(&record(33, &[6, 7]));
    records.extend_from_slice(&record(28, &[8]));
    records.extend_from_slice(&record(0x0101, &[9]));
    let answers = resolv.parse_answers(&response(0xbeef, 6, &records)).unwrap();
    let expected = vec![
        DnsAnswer::A(vec![1, 2, 3, 4]),
        DnsAnswer::PTR(vec![5]),
        DnsAnswer::TXT(vec![]),
        DnsAnswer::SRV(vec![6, 7]),
        DnsAnswer::UNKNOWN(vec![8]),
        DnsAnswer::UNKNOWN(vec![9]),
    ];
    assert_eq!(expected, answers);
}

#[test]
fn parse_answers_fails_on_a_short_buffer() {
    let resolv = DnsResolv::with_id(42);
    let truncated = Err(DnsError::Malformed(Malformation::Truncated));
    let whole = captured_response();
    assert_eq!(resolv.parse_answers(&[]), truncated);
    assert_eq!(resolv.parse_answers(&[0x00]), truncated);
    assert_eq!(resolv.parse_answers(&whole[..2]), truncated);
    assert_eq!(resolv.parse_answers(&whole[..11]), truncated);
    assert_eq!(resolv.parse_answers(&whole[..20]), truncated);
    assert_eq!(resolv.parse_answers(&whole[..32]), truncated);
    assert_eq!(resolv.parse_answers(&whole[..40]), truncated);
    assert_eq!(resolv.parse_answers(&whole[..whole.len() - 1]), truncated);
    let one_missing = response(42, 2, &record(1, &[1, 2, 3, 4]));
    assert_eq!(resolv.parse_answers(&one_missing), truncated);
}

#[test]
fn parse_answers_wants_a_name_pointer() {
    let resolv = DnsResolv::with_id(42);
    let mut bad = record(1, &[1, 2, 3, 4]);
    bad[0] = 0x05;
    let got = resolv.parse_answers(&response(42, 1, &bad));
    assert_eq!(got, Err(DnsError::Malformed(Malformation::NamePointerRequired)));
    let mut records = record(12, &[5]);
    records.extend_from_slice(&bad);
    let got = resolv.parse_answers(&response(42, 2, &records));
    assert_eq!(got, Err(DnsError::Malformed(Malformation::NamePointerRequired)));
}

#[test]
fn create_dnsanswer_advances_past_the_record() {
    let mut bytes = record(33, &[0, 0, 0, 0, 0x1f, 0x90]);
    bytes.extend_from_slice(&[0xaa, 0xbb]);
    let mut cursor = ByteCursor::new(&bytes);
    let answer = create_dnsanswer(&mut cursor).unwrap();
    assert_eq!(DnsAnswer::SRV(vec![0, 0, 0, 0, 0x1f, 0x90]), answer);
    assert_eq!(18, cursor.position());
    assert_eq!(2, cursor.remaining());
}

#[test]
fn create_dnsanswer_failure_leaves_the_cursor() {
    let bytes = record(1, &[1, 2, 3, 4]);
    let mut cursor = ByteCursor::new(&bytes[..15]);
    let got = create_dnsanswer(&mut cursor);
    assert_eq!(got, Err(DnsError::Malformed(Malformation::Truncated)));
    assert_eq!(0, cursor.position());
}

#[test]
fn dnsanswer_new_dispatches_on_the_type() {
    assert_eq!(DnsAnswer::A(vec![1]), DnsAnswer::new(1, vec![1]));
    assert_eq!(DnsAnswer::PTR(vec![2]), DnsAnswer::new(12, vec![2]));
    assert_eq!(DnsAnswer::TXT(vec![3]), DnsAnswer::new(16, vec![3]));
    assert_eq!(DnsAnswer::SRV(vec![4]), DnsAnswer::new(33, vec![4]));
    assert_eq!(DnsAnswer::UNKNOWN(vec![5]), DnsAnswer::new(0, vec![5]));
    assert_eq!(DnsAnswer::UNKNOWN(vec![6]), DnsAnswer::new(28, vec![6]));
    assert_eq!(DnsAnswer::UNKNOWN(vec![]), DnsAnswer::new(65535, vec![]));
}

#[test]
fn query_has_the_wire_layout() {
    let resolv = DnsResolv::with_id(0x1234);
    let query = resolv.create_query_buffer("_http._tcp.local");
    let expected: Vec<u8> = vec![
        0x12, 0x34, 0x01, 0x00, 0x00, 0x01, 0x00, 0x00, 0x00, 0x00, 0x00, 0x00, 0x05, b'_', b'h',
        b't', b't', b'p', 0x04, b'_', b't', b'c', b'p', 0x05, b'l', b'o', b'c', b'a', b'l', 0x00,
        0x00, 0x0c, 0x00, 0x01,
    ];
    assert_eq!(expected, query);
}

#[test]
fn query_name_reads_back() {
    let resolv = DnsResolv::with_id(9);
    for name in ["_http._tcp.local", "local", "a.b.c.d.e", "miaow_1._http._tcp.local"] {
        let query = resolv.create_query_buffer(name);
        let mut cursor = ByteCursor::new(&query[12..]);
        let back = cursor.read_labels().unwrap();
        assert_eq!(name.as_bytes(), back.as_slice());
        assert_eq!(4, cursor.remaining());
    }
}

#[test]
fn query_keeps_empty_labels() {
    let resolv = DnsResolv::with_id(0);
    let query = resolv.create_query_buffer("a..b.");
    assert_eq!(&[1, b'a', 0, 1, b'b', 0, 0, 0, 12, 0, 1], &query[12..]);
    let query = resolv.create_query_buffer("");
    assert_eq!(&[0, 0, 0, 12, 0, 1], &query[12..]);
}

#[test]
fn query_writes_a_long_label_length_modulo_256() {
    let resolv = DnsResolv::with_id(0);
    let name = "x".repeat(300);
    let query = resolv.create_query_buffer(&name);
    assert_eq!(12 + 1 + 300 + 1 + 4, query.len());
    assert_eq!(44, query[12]);
}

#[test]
fn own_query_is_no_response_with_answers() {
    let resolv = DnsResolv::with_id(77);
    let query = resolv.create_query_buffer("_http._tcp.local");
    assert_eq!(resolv.parse_answers(&query), Ok(Vec::new()));
}

#[test]
fn new_resolver_keeps_its_id() {
    let resolv = DnsResolv::new();
    let id = resolv.id();
    let query = resolv.create_query_buffer("local");
    assert_eq!(id, ((query[0] as u16) << 8) | query[1] as u16);
    assert_eq!(id, resolv.id());
    assert_eq!(resolv.parse_answers(&response(id, 0, &[])), Ok(Vec::new()));
}

#[test]
fn with_id_sets_the_id() {
    assert_eq!(42, DnsResolv::with_id(42).id());
    assert_eq!(0xffff, DnsResolv::with_id(0xffff).id());
}

#[test]
fn timeout_on_a_silent_network_ends_with_nothing() {
    let resolv = DnsResolv::with_id(42);
    let mut collected = Vec::new();
    let step = resolv.on_event(&mut collected, &Event::Timeout);
    assert_eq!(Step::Finish, step);
    assert!(collected.is_empty());
}

#[test]
fn response_with_another_id_is_dropped() {
    let resolv = DnsResolv::with_id(41);
    let mut collected = vec![DnsAnswer::A(vec![1, 2, 3, 4])];
    let step = resolv.on_event(&mut collected, &Event::Datagram(captured_response()));
    assert_eq!(Step::Listen, step);
    assert_eq!(vec![DnsAnswer::A(vec![1, 2, 3, 4])], collected);
}

#[test]
fn garbled_datagram_is_dropped() {
    let resolv = DnsResolv::with_id(42);
    let mut collected = Vec::new();
    let whole = captured_response();
    let cut = whole[..60].to_vec();
    assert_eq!(Step::Listen, resolv.on_event(&mut collected, &Event::Datagram(cut)));
    assert!(collected.is_empty());
    assert_eq!(Step::Listen, resolv.on_event(&mut collected, &Event::Datagram(Vec::new())));
    assert!(collected.is_empty());
}

#[test]
fn responses_are_collected_in_arrival_order() {
    let resolv = DnsResolv::with_id(42);
    let mut collected = Vec::new();
    let first = response(42, 1, &record(1, &[1, 2, 3, 4]));
    let foreign = response(43, 1, &record(1, &[9, 9, 9, 9]));
    let second = response(42, 2, &[record(16, &[0]), record(1, &[5, 6, 7, 8])].concat());
    assert_eq!(Step::Listen, resolv.on_event(&mut collected, &Event::Datagram(first)));
    assert_eq!(Step::Listen, resolv.on_event(&mut collected, &Event::Datagram(foreign)));
    assert_eq!(Step::Listen, resolv.on_event(&mut collected, &Event::Datagram(second)));
    assert_eq!(Step::Finish, resolv.on_event(&mut collected, &Event::Timeout));
    let expected = vec![
        DnsAnswer::A(vec![1, 2, 3, 4]),
        DnsAnswer::TXT(vec![0]),
        DnsAnswer::A(vec![5, 6, 7, 8]),
    ];
    assert_eq!(expected, collected);
}

#[test]
fn queries_go_to_the_mdns_group() {
    assert_eq!([224, 0, 0, 251], GROUP);
    assert_eq!(5353, GROUP_PORT);
    assert_eq!(512, DATAGRAM_MAX);
    assert_eq!(100, TIMEOUT_MS);
}
