use log_splitter::lines::split_segments;
use log_splitter::lines::write_line;
use log_splitter::lines::NEWLINE;

fn joined(lines: &[Vec<u8>]) -> Vec<u8> {
    let mut out = Vec::new();
    for line in lines {
        write_line(&mut out, line);
    }
    out
}

#[test]
fn newline_is_the_line_feed_byte() {
    assert_eq!(NEWLINE, b'\n');
}

#[test]
fn empty_stream_has_no_line() {
    assert_eq!(split_segments(b""), Vec::<Vec<u8>>::new());
}

#[test]
fn single_newline_is_one_empty_line() {
    assert_eq!(split_segments(b"\n"), vec![Vec::<u8>::new()]);
}

#[test]
fn unterminated_stream_is_one_line() {
    assert_eq!(split_segments(b"abc"), vec![b"abc".to_vec()]);
}

#[test]
fn terminated_line_has_no_empty_successor() {
    assert_eq!(split_segments(b"abc\n"), vec![b"abc".to_vec()]);
}

#[test]
fn final_line_without_newline_is_kept() {
    assert_eq!(split_segments(b"a\nb"), vec![b"a".to_vec(), b"b".to_vec()]);
}

#[test]
fn empty_lines_between_newlines_are_kept() {
    assert_eq!(
        split_segments(b"a\n\nb\n"),
        vec![b"a".to_vec(), Vec::new(), b"b".to_vec()]
    );
    assert_eq!(split_segments(b"\n\n"), vec![Vec::<u8>::new(), Vec::new()]);
}

#[test]
fn carriage_return_stays_in_the_line() {
    assert_eq!(
        split_segments(b"a\r\nb\r\n"),
        vec![b"a\r".to_vec(), b"b\r".to_vec()]
    );
}

#[test]
fn lines_hold_no_newline() {
    let data = b"one\ntwo\n\nthree\nfour";
    for line in split_segments(data) {
        assert!(!line.contains(&NEWLINE));
    }
}

#[test]
fn lines_are_at_most_as_many_as_bytes() {
    for data in [&b""[..], b"\n", b"\n\n\n", b"a", b"a\nb\nc"] {
        assert!(split_segments(data).len() <= data.len());
    }
}

#[test]
fn write_line_appends_bytes_and_one_newline() {
    let mut out = b"x\n".to_vec();
    write_line(&mut out, b"yz");
    assert_eq!(out, b"x\nyz\n".to_vec());
    write_line(&mut out, b"");
    assert_eq!(out, b"x\nyz\n\n".to_vec());
}

#[test]
fn joining_the_lines_of_a_terminated_stream_gives_it_back() {
    for data in [&b""[..], b"\n", b"a\n", b"a\n\nb\n", b"\n\n"] {
        assert_eq!(joined(&split_segments(data)), data.to_vec());
    }
}

#[test]
fn joining_the_lines_of_an_unterminated_stream_adds_one_newline() {
    for data in [&b"a"[..], b"a\nb", b"\n\nx"] {
        let mut expected = data.to_vec();
        expected.push(b'\n');
        assert_eq!(joined(&split_segments(data)), expected);
    }
}

#[test]
fn lines_come_back_from_what_was_written() {
    let lines = vec![b"first".to_vec(), Vec::new(), vec![0xff, 0x00, 0xc3, 0x28], b"last".to_vec()];
    assert_eq!(split_segments(&joined(&lines)), lines);
}

#[test]
fn every_byte_value_but_newline_survives() {
    let mut line = Vec::new();
    for byte in 0..=255u8 {
        if byte != b'\n' {
            line.push(byte);
        }
    }
    let mut data = line.clone();
    data.push(b'\n');
    assert_eq!(split_segments(&data), vec![line]);
}
