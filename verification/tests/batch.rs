use rsomics_boschloo_exact::{
    batch_table_lines, parse_batch_line, trim_ascii, BatchLineError, TableError,
};

#[test]
fn trim_ascii_strips_both_ends() {
    assert_eq!(trim_ascii(b"  7,12,8,3 \r\n"), b"7,12,8,3");
    assert_eq!(trim_ascii(b"\t\x0c x y \t"), b"x y");
    assert_eq!(trim_ascii(b""), b"");
    assert_eq!(trim_ascii(b" \t\r\n"), b"");
    assert_eq!(trim_ascii(b"abc"), b"abc");
}

#[test]
fn trim_ascii_keeps_vertical_tab() {
    assert_eq!(trim_ascii(b"\x0bx\x0b"), b"\x0bx\x0b");
}

#[test]
fn trim_ascii_is_idempotent() {
    for s in [&b"  a b  "[..], b"\n\n", b"x", b" \x0b "] {
        let once = trim_ascii(s);
        assert_eq!(trim_ascii(once), once);
    }
}

#[test]
fn batch_lines_one_per_table() {
    let bytes = b"7,12,8,3\n2,7,8,2\n20,14,12,18\n";
    let lines = batch_table_lines(bytes);
    assert_eq!(lines, vec![&b"7,12,8,3"[..], b"2,7,8,2", b"20,14,12,18"]);
}

#[test]
fn batch_lines_skip_blank_and_trim() {
    let bytes = b"\n  7,12,8,3  \r\n\n \t \n2,7,8,2";
    let lines = batch_table_lines(bytes);
    assert_eq!(lines, vec![&b"7,12,8,3"[..], b"2,7,8,2"]);
    assert!(batch_table_lines(b"").is_empty());
    assert!(batch_table_lines(b"\n\n \n").is_empty());
}

#[test]
fn batch_line_reads_table() {
    assert_eq!(parse_batch_line(b"20,14,12,18"), Ok((20, 14, 12, 18)));
}

#[test]
fn batch_line_not_utf8() {
    assert_eq!(parse_batch_line(b"1,2,\xff,4"), Err(BatchLineError::NotUtf8));
}

#[test]
fn batch_line_table_errors() {
    assert_eq!(
        parse_batch_line(b"1,2,3"),
        Err(BatchLineError::Table(TableError::WrongCellCount(
            "1,2,3".to_string()
        )))
    );
    assert_eq!(
        parse_batch_line("1,2,\u{e9},4".as_bytes()),
        Err(BatchLineError::Table(TableError::NotACount(
            "\u{e9}".to_string()
        )))
    );
}
