use relibc::dns::{Dns, DnsAnswer, DnsQuery, CLASS_IN, FLAGS_QUERY, TYPE_A, TYPE_PTR};
use relibc::name::{is_valid_name, split_bytes};

fn query(id: u16, name: &[u8], q_type: u16) -> Dns {
    Dns {
        transaction_id: id,
        flags: FLAGS_QUERY,
        queries: vec![DnsQuery { name: name.to_vec(), q_type, q_class: CLASS_IN }],
        answers: vec![],
    }
}

#[test]
fn compile_query_bytes() {
    let bytes = query(0x1234, b"a.bc", TYPE_A).compile();
    assert_eq!(
        bytes,
        vec![
            0x12, 0x34, 0x01, 0x00, 0x00, 0x01, 0x00, 0x00, 0x00, 0x00, 0x00, 0x00, 1, b'a', 2,
            b'b', b'c', 0, 0x00, 0x01, 0x00, 0x01
        ]
    );
}

#[test]
fn query_round_trip() {
    let bytes = query(0xbeef, b"www.example.com", TYPE_PTR).compile();
    let back = Dns::parse(&bytes).ok().unwrap();
    assert_eq!(back.transaction_id, 0xbeef);
    assert_eq!(back.flags, FLAGS_QUERY);
    assert_eq!(back.queries.len(), 1);
    assert_eq!(back.queries[0].name, b"www.example.com".to_vec());
    assert_eq!(back.queries[0].q_type, TYPE_PTR);
    assert_eq!(back.queries[0].q_class, CLASS_IN);
    assert!(back.answers.is_empty());
}

#[test]
fn answers_round_trip() {
    let packet = Dns {
        transaction_id: 7,
        flags: 0x8180,
        queries: vec![DnsQuery { name: b"x.y".to_vec(), q_type: TYPE_A, q_class: CLASS_IN }],
        answers: vec![
            DnsAnswer {
                name: vec![0xc0, 0x0c],
                a_type: TYPE_A,
                a_class: CLASS_IN,
                ttl: 0x0102_0304,
                data: vec![1, 2, 3, 4],
            },
            DnsAnswer {
                name: vec![1, b'x', 0],
                a_type: 16,
                a_class: CLASS_IN,
                ttl: 5,
                data: vec![],
            },
        ],
    };
    let bytes = packet.compile();
    let back = Dns::parse(&bytes).ok().unwrap();
    assert_eq!(back.transaction_id, 7);
    assert_eq!(back.flags, 0x8180);
    assert_eq!(back.answers.len(), 2);
    assert_eq!(back.answers[0].name, vec![0xc0, 0x0c]);
    assert_eq!(back.answers[0].ttl, 0x0102_0304);
    assert_eq!(back.answers[0].data, vec![1, 2, 3, 4]);
    assert_eq!(back.answers[1].name, vec![1, b'x', 0]);
    assert_eq!(back.answers[1].a_type, 16);
    assert!(back.answers[1].data.is_empty());
}

#[test]
fn parse_rejects_short_header() {
    assert!(Dns::parse(&[0x12, 0x34, 0x01]).is_err());
    assert!(Dns::parse(&[]).is_err());
}

#[test]
fn parse_rejects_truncated_answer() {
    let mut bytes = vec![0, 1, 0x81, 0x80, 0, 0, 0, 1, 0, 0, 0, 0];
    bytes.extend_from_slice(&[0xc0, 0x0c, 0, 1, 0, 1, 0, 0, 0, 60, 0, 4, 10, 0]);
    assert!(Dns::parse(&bytes).is_err());
    bytes.extend_from_slice(&[0, 1]);
    let ok = Dns::parse(&bytes).ok().unwrap();
    assert_eq!(ok.answers[0].data, vec![10, 0, 0, 1]);
}

#[test]
fn parse_rejects_compressed_question() {
    let bytes = vec![0, 1, 0, 0, 0, 1, 0, 0, 0, 0, 0, 0, 0xc0, 0x0c, 0, 1, 0, 1];
    assert!(Dns::parse(&bytes).is_err());
}

#[test]
fn name_validity() {
    assert!(is_valid_name(b"example.com"));
    assert!(is_valid_name(b"a"));
    assert!(!is_valid_name(b""));
    assert!(!is_valid_name(b"a..b"));
    assert!(!is_valid_name(b"example.com."));
    assert!(is_valid_name(&[b'x'; 63]));
    assert!(!is_valid_name(&[b'x'; 64]));
}

#[test]
fn split_on_dots() {
    let parts = split_bytes(b"a..bc.", b'.');
    assert_eq!(parts, vec![b"a".to_vec(), vec![], b"bc".to_vec(), vec![]]);
    assert_eq!(split_bytes(b"", b'.'), vec![Vec::<u8>::new()]);
}
