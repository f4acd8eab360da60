use relibc::dns::{Dns, CLASS_IN, TYPE_A, TYPE_PTR};
use relibc::resolver::{
    addr_response, build_query, check_sent, host_response, nameserver_from_conf, parse_dotted_quad,
    parse_revdns_answer, prepare_addr_lookup, prepare_host_lookup, reverse_lookup_name,
    transaction_id, LookupError, DNS_PORT,
};
use relibc::types::{in_addr, timespec};

fn reply_header(id: u16, answers: u16) -> Vec<u8> {
    let mut v = vec![(id >> 8) as u8, id as u8, 0x81, 0x80, 0, 1, 0, answers as u8, 0, 0, 0, 0];
    v.extend_from_slice(&[1, b'a', 2, b'b', b'c', 0, 0, 1, 0, 1]);
    v
}

fn record(name: &[u8], a_type: u16, a_class: u16, data: &[u8]) -> Vec<u8> {
    let mut v = name.to_vec();
    v.extend_from_slice(&[(a_type >> 8) as u8, a_type as u8, (a_class >> 8) as u8, a_class as u8]);
    v.extend_from_slice(&[0, 0, 1, 0x2c]);
    v.extend_from_slice(&[(data.len() >> 8) as u8, data.len() as u8]);
    v.extend_from_slice(data);
    v
}

#[test]
fn host_reply_keeps_only_a_records() {
    let now = timespec { tv_sec: 0, tv_nsec: 0x1234_5678 };
    let req = prepare_host_lookup(b" 10.0.0.53\n", b"a.bc", &now).ok().unwrap();
    let id = transaction_id(&now);
    assert_eq!(id, 0x1234);
    let query = Dns::parse(&req.packet).ok().unwrap();
    assert_eq!(query.transaction_id, id);
    assert_eq!(query.queries[0].name, b"a.bc".to_vec());
    assert_eq!(query.queries[0].q_type, TYPE_A);

    let mut reply = reply_header(id, 5);
    reply.extend(record(&[0xc0, 0x0c], TYPE_A, CLASS_IN, &[93, 184, 216, 34]));
    reply.extend(record(&[0xc0, 0x0c], 5, CLASS_IN, &[0xc0, 0x0c]));
    reply.extend(record(&[0xc0, 0x0c], TYPE_A, CLASS_IN, &[1, 2, 3, 4, 5]));
    reply.extend(record(&[1, b'a', 0], TYPE_A, 3, &[9, 9, 9, 9]));
    reply.extend(record(&[0xc0, 0x0c], TYPE_A, CLASS_IN, &[10, 0, 0, 1]));
    let mut buf = reply.clone();
    buf.extend_from_slice(&[0xff; 16]);
    let addrs = host_response(reply.len() as isize, &buf).ok().unwrap();
    let octets: Vec<[u8; 4]> = addrs.iter().map(|a| a.s_addr).collect();
    assert_eq!(octets, vec![[93, 184, 216, 34], [10, 0, 0, 1]]);
}

#[test]
fn host_reply_errors() {
    assert_eq!(host_response(-1, &[0u8; 4]).err(), Some(LookupError::Receive));
    assert_eq!(host_response(5, &[0u8; 4]).err(), Some(LookupError::Receive));
    assert_eq!(host_response(4, &[0u8; 4]).err(), Some(LookupError::Malformed));
    let reply = reply_header(1, 0);
    assert_eq!(host_response(reply.len() as isize, &reply).ok().unwrap().len(), 0);
}

#[test]
fn unparseable_nameserver_fails_before_any_socket() {
    let now = timespec { tv_sec: 1, tv_nsec: 2 };
    assert_eq!(prepare_host_lookup(b"", b"example.com", &now).err(), Some(LookupError::NoNameserver));
    assert_eq!(prepare_host_lookup(b"1.2.3", b"example.com", &now).err(), Some(LookupError::NoNameserver));
    assert_eq!(prepare_host_lookup(b"1.2.3.256", b"example.com", &now).err(), Some(LookupError::NoNameserver));
    assert_eq!(prepare_host_lookup(b"1.2.x.4", b"example.com", &now).err(), Some(LookupError::NoNameserver));
    let addr = in_addr { s_addr: [1, 2, 3, 4] };
    assert_eq!(prepare_addr_lookup(b"", &addr, &now).err(), Some(LookupError::NoNameserver));
}

#[test]
fn invalid_host_name_is_rejected() {
    let now = timespec { tv_sec: 1, tv_nsec: 2 };
    assert_eq!(prepare_host_lookup(b"8.8.8.8", b"bad..name", &now).err(), Some(LookupError::InvalidName));
    assert!(build_query(1, b"", TYPE_A).is_none());
}

#[test]
fn nameserver_setting() {
    let conf = b"# comment\nsearch lan\nnameserver 192.168.1.1\nnameserver 8.8.8.8\n";
    assert_eq!(nameserver_from_conf(conf), b" 192.168.1.1".to_vec());
    assert_eq!(nameserver_from_conf(b"search lan\n"), Vec::<u8>::new());
    let addr = parse_dotted_quad(b" 192.168.1.1").unwrap();
    assert_eq!(addr.s_addr, [192, 168, 1, 1]);
    assert_eq!(parse_dotted_quad(b"\t010.0.0.255 \n").unwrap().s_addr, [10, 0, 0, 255]);
    assert!(parse_dotted_quad(b"1.2.3.4.5").is_none());
    assert!(parse_dotted_quad(b"1..3.4").is_none());
}

#[test]
fn reverse_name_of_address() {
    let name = reverse_lookup_name(&in_addr { s_addr: [192, 0, 2, 10] });
    assert_eq!(name, b"10.2.0.192.IN-ADDR.ARPA".to_vec());
    let name = reverse_lookup_name(&in_addr { s_addr: [0, 0, 0, 0] });
    assert_eq!(name, b"0.0.0.0.IN-ADDR.ARPA".to_vec());
}

#[test]
fn reverse_lookup_query_and_reply() {
    let now = timespec { tv_sec: 0, tv_nsec: 0x0007_0000 };
    let req = prepare_addr_lookup(b"127.0.0.53", &in_addr { s_addr: [1, 2, 3, 4] }, &now).ok().unwrap();
    assert_eq!(req.server.s_addr, [127, 0, 0, 53]);
    assert_eq!(req.port, DNS_PORT);
    let query = Dns::parse(&req.packet).ok().unwrap();
    assert_eq!(query.transaction_id, 7);
    assert_eq!(query.queries[0].name, b"4.3.2.1.IN-ADDR.ARPA".to_vec());
    assert_eq!(query.queries[0].q_type, TYPE_PTR);

    let mut reply = reply_header(7, 2);
    reply.extend(record(&[0xc0, 0x0c], TYPE_PTR, CLASS_IN, &[4, b'h', b'o', b's', b't', 3, b'l', b'a', b'n', 0]));
    reply.extend(record(&[0xc0, 0x0c], TYPE_A, CLASS_IN, &[1, 2, 3, 4]));
    let names = addr_response(reply.len() as isize, &reply).ok().unwrap();
    assert_eq!(names, vec![b"host.lan".to_vec()]);
}

#[test]
fn revdns_two_labels() {
    let data = vec![3, b'1', b'9', b'2', 3, b'1', b'6', b'8'];
    assert_eq!(parse_revdns_answer(data), b"192.168".to_vec());
}

#[test]
fn revdns_single_label() {
    assert_eq!(parse_revdns_answer(vec![3, b'w', b'w', b'w']), b"www".to_vec());
}

#[test]
fn revdns_with_remainder_and_root() {
    let data = vec![3, b'1', b'9', b'2', 3, b'1', b'6', b'8', 4, b'a', b'r', b'p', b'a', 0];
    assert_eq!(parse_revdns_answer(data), b"192.168.arpa".to_vec());
    assert_eq!(parse_revdns_answer(vec![]), Vec::<u8>::new());
    assert_eq!(parse_revdns_answer(vec![5, b'a', b'b']), b"ab".to_vec());
}

#[test]
fn sent_count() {
    assert_eq!(check_sent(-1), Err(LookupError::Send));
    assert_eq!(check_sent(0), Ok(()));
    assert_eq!(check_sent(30), Ok(()));
}

#[test]
fn revdns_shape_of_well_formed_labels() {
    let data = vec![7, b'e', b'x', b'a', b'm', b'p', b'l', b'e', 3, b'c', b'o', b'm', 2, b'u', b'k'];
    let name = parse_revdns_answer(data.clone());
    assert_eq!(name, b"example.com.uk".to_vec());
    assert_eq!(name.len(), data.len() - 1);
    assert_eq!(name.iter().filter(|b| **b == b'.').count(), 2);
    assert_ne!(name.last(), Some(&b'.'));
}
