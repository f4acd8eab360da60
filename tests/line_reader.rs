use relibc::rlb::{Line, Next, RawLineBuffer, READ_CHUNK};

/// Drives the reader over `input`, handing it at most `chunk` bytes per read.
fn next_line(rlb: &mut RawLineBuffer, input: &[u8], pos: &mut usize, chunk: usize) -> Line {
    loop {
        match rlb.next() {
            Next::Text(t) => return Line::Text(t),
            Next::EOF => return Line::EOF,
            Next::Read(n) => {
                assert_eq!(n, READ_CHUNK);
                let take = chunk.min(n).min(input.len() - *pos);
                let data = input[*pos..*pos + take].to_vec();
                *pos += take;
                if let Some(line) = rlb.fill(take as isize, &data) {
                    return line;
                }
            }
        }
    }
}

fn text(line: Line) -> Vec<u8> {
    match line {
        Line::Text(t) => t,
        Line::EOF => panic!("unexpected end of input"),
        Line::Error => panic!("unexpected read error"),
    }
}

fn lines_of(input: &[u8], chunk: usize) -> Vec<Vec<u8>> {
    let mut rlb = RawLineBuffer::new(3);
    let mut pos = 0;
    let mut out = Vec::new();
    loop {
        match next_line(&mut rlb, input, &mut pos, chunk) {
            Line::Text(t) => out.push(t),
            Line::EOF => return out,
            Line::Error => panic!("unexpected read error"),
        }
    }
}

#[test]
fn four_lines_then_eof() {
    let input = b"a\nbb\n\nc";
    let mut rlb = RawLineBuffer::new(3);
    let mut pos = 0;
    assert_eq!(text(next_line(&mut rlb, input, &mut pos, 1024)), b"a".to_vec());
    assert_eq!(text(next_line(&mut rlb, input, &mut pos, 1024)), b"bb".to_vec());
    assert_eq!(text(next_line(&mut rlb, input, &mut pos, 1024)), b"".to_vec());
    assert_eq!(text(next_line(&mut rlb, input, &mut pos, 1024)), b"c".to_vec());
    for _ in 0..3 {
        assert!(matches!(next_line(&mut rlb, input, &mut pos, 1024), Line::EOF));
    }
}

#[test]
fn one_byte_reads_lose_nothing() {
    let expected = vec![b"a".to_vec(), b"bb".to_vec(), vec![], b"c".to_vec()];
    assert_eq!(lines_of(b"a\nbb\n\nc", 1), expected);
    assert_eq!(lines_of(b"a\nbb\n\nc", 3), expected);
}

#[test]
fn line_longer_than_a_read() {
    let mut input = vec![b'x'; 3000];
    input.push(b'\n');
    input.extend_from_slice(b"tail\n");
    let lines = lines_of(&input, 7);
    assert_eq!(lines.len(), 2);
    assert_eq!(lines[0], vec![b'x'; 3000]);
    assert_eq!(lines[1], b"tail".to_vec());
}

#[test]
fn empty_input_is_eof() {
    assert!(lines_of(b"", 5).is_empty());
    assert_eq!(lines_of(b"\n", 5), vec![Vec::<u8>::new()]);
}

#[test]
fn line_positions() {
    let input = b"ab\ncde\n";
    let mut rlb = RawLineBuffer::new(3);
    let mut pos = 0;
    assert_eq!(rlb.line_pos(), 0);
    assert_eq!(text(next_line(&mut rlb, input, &mut pos, 2)), b"ab".to_vec());
    assert_eq!(rlb.line_pos(), 0);
    assert_eq!(text(next_line(&mut rlb, input, &mut pos, 2)), b"cde".to_vec());
    assert_eq!(rlb.line_pos(), 3);
}

#[test]
fn read_error_is_reported() {
    let mut rlb = RawLineBuffer::new(3);
    assert!(matches!(rlb.next(), Next::Read(_)));
    assert!(matches!(rlb.fill(-1, &[]), Some(Line::Error)));
    assert!(matches!(rlb.next(), Next::Read(_)));
    assert!(rlb.fill(2, b"z\n").is_none());
    match rlb.next() {
        Next::Text(t) => assert_eq!(t, b"z".to_vec()),
        _ => panic!("expected a line"),
    }
}

#[test]
fn read_split_does_not_matter() {
    let mut input = vec![b'y'; 5000];
    input.push(b'\n');
    input.extend_from_slice(b"one\n\ntwo\nlast");
    let small = lines_of(&input, 3);
    let large = lines_of(&input, 1024);
    assert_eq!(small, large);
    assert_eq!(small.len(), 5);
    assert_eq!(small[0], vec![b'y'; 5000]);
    assert_eq!(small[4], b"last".to_vec());
}
