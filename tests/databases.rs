use relibc::netdb::{
    c_alias_table, is_skipped_line, literal_address, parse_entry, parse_host_line, parse_proto_line,
    parse_serv_line, serv_matches_name, serv_matches_port, Database, DbKind, DbStep, Entry,
};
use relibc::rlb::Line;

#[test]
fn services_line() {
    let e = parse_serv_line(b"http 80/tcp www-http\n").unwrap();
    assert_eq!(e.name, b"http".to_vec());
    assert_eq!(e.port, 80);
    assert_eq!(e.proto, b"tcp".to_vec());
    assert_eq!(e.aliases, vec![b"www-http".to_vec()]);
    let table = c_alias_table(&e.aliases);
    assert_eq!(table, vec![Some(b"www-http\0".to_vec()), None]);
}

#[test]
fn services_line_errors() {
    assert!(parse_serv_line(b"http 80").is_none());
    assert!(parse_serv_line(b"http x/tcp").is_none());
    assert!(parse_serv_line(b"http 70000/tcp").is_none());
    assert!(parse_serv_line(b"http").is_none());
    let e = parse_serv_line(b"  domain\t53/udp/x  ").unwrap();
    assert_eq!(e.proto, b"udp".to_vec());
    assert!(e.aliases.is_empty());
}

#[test]
fn hosts_line() {
    let e = parse_host_line(b"127.0.0.1\tlocalhost loopback lh").unwrap();
    assert_eq!(e.addr.s_addr, [127, 0, 0, 1]);
    assert_eq!(e.name, b"localhost".to_vec());
    assert_eq!(e.aliases, vec![b"loopback".to_vec(), b"lh".to_vec()]);
    assert!(parse_host_line(b"::1 localhost").is_none());
}

#[test]
fn protocols_line() {
    let e = parse_proto_line(b"tcp 6 TCP").unwrap();
    assert_eq!(e.name, b"tcp".to_vec());
    assert_eq!(e.number, 6);
    assert_eq!(e.aliases, vec![b"TCP".to_vec()]);
    assert!(parse_proto_line(b"tcp six").is_none());
}

#[test]
fn skipped_lines() {
    assert!(is_skipped_line(b""));
    assert!(is_skipped_line(b"   \t"));
    assert!(is_skipped_line(b"# ftp 21/tcp"));
    assert!(!is_skipped_line(b"ftp 21/tcp # file transfer"));
    assert!(parse_entry(DbKind::Services, b"#x 1/tcp").is_none());
}

#[test]
fn service_matching() {
    let e = parse_serv_line(b"http 80/tcp www www-http").unwrap();
    assert!(serv_matches_name(&e, b"http", b"tcp"));
    assert!(serv_matches_name(&e, b"www-http", b"tcp"));
    assert!(!serv_matches_name(&e, b"www-http", b"udp"));
    assert!(!serv_matches_name(&e, b"ftp", b"tcp"));
    assert!(serv_matches_port(&e, 80, b"tcp"));
    assert!(!serv_matches_port(&e, 81, b"tcp"));
}

#[test]
fn dotted_quad_host() {
    assert_eq!(literal_address(b"10.1.2.3").unwrap().s_addr, [10, 1, 2, 3]);
    assert!(literal_address(b"example.com").is_none());
}

/// Walks a database whose file holds `content`, read `chunk` bytes at a time.
fn walk(db: &mut Database, content: &[u8], chunk: usize) -> (Vec<Entry>, bool) {
    let mut pos = 0;
    let mut out = Vec::new();
    loop {
        match db.step() {
            DbStep::Found(e) => out.push(e),
            DbStep::Skip => {}
            DbStep::Open => {
                assert!(db.opened(5));
                pos = 0;
            }
            DbStep::Read(fd, n) => {
                assert_eq!(fd, 5);
                let take = chunk.min(n).min(content.len() - pos);
                let data = content[pos..pos + take].to_vec();
                pos += take;
                if let Some(Line::Error) = db.fill(take as isize, &data) {
                    panic!("read failed");
                }
            }
            DbStep::End(file) => return (out, file.is_some()),
        }
    }
}

#[test]
fn services_database_walk() {
    let content = b"# services\n\nhttp 80/tcp www\nbroken line\nssh 22/tcp\n";
    let mut db = Database::new(DbKind::Services);
    assert!(!db.is_open());
    let (entries, closed) = walk(&mut db, content, 4);
    assert!(closed);
    assert!(!db.is_open());
    let names: Vec<Vec<u8>> = entries
        .into_iter()
        .map(|e| match e {
            Entry::Serv(s) => s.name,
            _ => panic!("wrong kind"),
        })
        .collect();
    assert_eq!(names, vec![b"http".to_vec(), b"ssh".to_vec()]);
}

#[test]
fn stay_open_keeps_descriptor() {
    let content = b"tcp 6 TCP\nudp 17 UDP";
    let mut db = Database::new(DbKind::Protocols);
    assert_eq!(db.set(true), None);
    let (entries, closed) = walk(&mut db, content, 100);
    assert_eq!(entries.len(), 2);
    assert!(!closed);
    assert!(db.is_open());
    assert_eq!(db.set(true), Some(5));
    let (again, _) = walk(&mut db, content, 100);
    assert_eq!(again.len(), 2);
    let file = db.end().unwrap();
    assert_eq!(file.into_raw_fd(), 5);
}

#[test]
fn end_on_closed_database_is_a_no_op() {
    let mut db = Database::new(DbKind::Hosts);
    assert!(db.end().is_none());
    assert!(db.end().is_none());
    assert!(!db.is_open());
    assert!(db.opened(4));
    assert!(db.end().is_some());
    assert!(db.end().is_none());
}

#[test]
fn failed_open_stays_closed() {
    let mut db = Database::new(DbKind::Hosts);
    assert!(!db.opened(-1));
    assert!(!db.is_open());
    assert!(matches!(db.step(), DbStep::Open));
}

/// One entry of the walk, reading `content` at most `chunk` bytes at a time;
/// `None` at the end. `closed` tells whether the cursor closed the file.
fn next_entry(
    db: &mut Database,
    content: &[u8],
    pos: &mut usize,
    chunk: usize,
    closed: &mut bool,
) -> Option<Entry> {
    loop {
        match db.step() {
            DbStep::Found(e) => return Some(e),
            DbStep::Skip => {}
            DbStep::Open => {
                assert!(db.opened(6));
                *pos = 0;
            }
            DbStep::Read(_, n) => {
                let take = chunk.min(n).min(content.len() - *pos);
                let data = content[*pos..*pos + take].to_vec();
                *pos += take;
                assert!(db.fill(take as isize, &data).is_none());
            }
            DbStep::End(file) => {
                *closed = file.is_some();
                return None;
            }
        }
    }
}

fn serv(e: Option<Entry>) -> relibc::netdb::ServEntry {
    match e {
        Some(Entry::Serv(s)) => s,
        _ => panic!("expected a service entry"),
    }
}

#[test]
fn services_walk_from_closed() {
    let content = b"http 80/tcp www-http\n";
    let mut db = Database::new(DbKind::Services);
    let (mut pos, mut closed) = (0, false);
    let s = serv(next_entry(&mut db, content, &mut pos, 1024, &mut closed));
    assert_eq!((s.name, s.port, s.proto.clone()), (b"http".to_vec(), 80, b"tcp".to_vec()));
    assert_eq!(c_alias_table(&s.aliases), vec![Some(b"www-http\0".to_vec()), None]);
}

#[test]
fn services_walk_skips_comments_and_blanks() {
    let content = b"# comment\n\n   \nssh 22/tcp\n";
    let mut db = Database::new(DbKind::Services);
    let (mut pos, mut closed) = (0, false);
    let s = serv(next_entry(&mut db, content, &mut pos, 5, &mut closed));
    assert_eq!((s.name, s.port, s.proto), (b"ssh".to_vec(), 22, b"tcp".to_vec()));
    assert_eq!(c_alias_table(&s.aliases), vec![None]);
}

#[test]
fn services_walk_closes_only_at_the_end() {
    let content = b"http 80/tcp\nssh 22/tcp\n";
    let mut db = Database::new(DbKind::Services);
    let (mut pos, mut closed) = (0, false);
    let a = serv(next_entry(&mut db, content, &mut pos, 1024, &mut closed));
    assert_eq!((a.name, a.port), (b"http".to_vec(), 80));
    assert!(db.is_open());
    let b = serv(next_entry(&mut db, content, &mut pos, 1024, &mut closed));
    assert_eq!((b.name, b.port), (b"ssh".to_vec(), 22));
    assert!(db.is_open());
    assert!(next_entry(&mut db, content, &mut pos, 1024, &mut closed).is_none());
    assert!(closed);
    assert!(!db.is_open());
}

#[test]
fn protocols_walk() {
    let content = b"# protocols\nip 0 IP\ntcp 6 TCP\n";
    let mut db = Database::new(DbKind::Protocols);
    let (mut pos, mut closed) = (0, false);
    let mut got = Vec::new();
    while let Some(e) = next_entry(&mut db, content, &mut pos, 7, &mut closed) {
        match e {
            Entry::Proto(p) => got.push((p.name, p.number, p.aliases)),
            _ => panic!("expected a protocol entry"),
        }
    }
    assert_eq!(
        got,
        vec![
            (b"ip".to_vec(), 0, vec![b"IP".to_vec()]),
            (b"tcp".to_vec(), 6, vec![b"TCP".to_vec()]),
        ]
    );
    assert!(closed);
}

#[test]
fn hosts_walk_and_reopen() {
    let content = b"127.0.0.1 localhost lh\n";
    let mut db = Database::new(DbKind::Hosts);
    let (mut pos, mut closed) = (0, false);
    for _ in 0..2 {
        match next_entry(&mut db, content, &mut pos, 1024, &mut closed) {
            Some(Entry::Host(h)) => {
                assert_eq!(h.addr.s_addr, [127, 0, 0, 1]);
                assert_eq!(h.name, b"localhost".to_vec());
                assert_eq!(h.aliases, vec![b"lh".to_vec()]);
            }
            _ => panic!("expected a host entry"),
        }
        assert!(next_entry(&mut db, content, &mut pos, 1024, &mut closed).is_none());
        assert!(closed);
        assert!(!db.is_open());
    }
}
