use rsomics_boschloo_exact::{parse_table, TableError};

#[test]
fn parses_plain_table() {
    assert_eq!(parse_table("7,12,8,3"), Ok((7, 12, 8, 3)));
    assert_eq!(parse_table("2,7,8,2"), Ok((2, 7, 8, 2)));
    assert_eq!(parse_table("0,0,0,0"), Ok((0, 0, 0, 0)));
}

#[test]
fn trims_whitespace_around_cells() {
    assert_eq!(parse_table(" 7 ,\t12,8 ,3\n"), Ok((7, 12, 8, 3)));
    assert_eq!(parse_table("\u{a0}1,\u{3000}2,3\u{2028},4"), Ok((1, 2, 3, 4)));
}

#[test]
fn accepts_plus_sign_and_leading_zeros() {
    assert_eq!(parse_table("+7,007,0,+0"), Ok((7, 7, 0, 0)));
}

#[test]
fn accepts_largest_count() {
    assert_eq!(
        parse_table("18446744073709551615,1,2,3"),
        Ok((u64::MAX, 1, 2, 3))
    );
}

#[test]
fn wrong_cell_count_reports_the_whole_spec() {
    assert_eq!(
        parse_table("1,2,3"),
        Err(TableError::WrongCellCount("1,2,3".to_string()))
    );
    assert_eq!(
        parse_table("1,2,3,4,5"),
        Err(TableError::WrongCellCount("1,2,3,4,5".to_string()))
    );
    assert_eq!(
        parse_table(""),
        Err(TableError::WrongCellCount(String::new()))
    );
    assert_eq!(
        parse_table("1,2,3,4,"),
        Err(TableError::WrongCellCount("1,2,3,4,".to_string()))
    );
}

#[test]
fn count_is_checked_before_cells() {
    assert_eq!(
        parse_table("x,y"),
        Err(TableError::WrongCellCount("x,y".to_string()))
    );
}

#[test]
fn bad_cell_reports_first_bad_cell_as_written() {
    assert_eq!(
        parse_table("1, -2,x,4"),
        Err(TableError::NotACount(" -2".to_string()))
    );
    assert_eq!(
        parse_table("1,2,3,"),
        Err(TableError::NotACount(String::new()))
    );
    assert_eq!(
        parse_table("1,2,3, + "),
        Err(TableError::NotACount(" + ".to_string()))
    );
    assert_eq!(
        parse_table("1,2.5,3,4"),
        Err(TableError::NotACount("2.5".to_string()))
    );
    assert_eq!(
        parse_table("1,2,3,4 4"),
        Err(TableError::NotACount("4 4".to_string()))
    );
}

#[test]
fn overflowing_cell_is_not_a_count() {
    assert_eq!(
        parse_table("18446744073709551616,1,2,3"),
        Err(TableError::NotACount("18446744073709551616".to_string()))
    );
    assert_eq!(
        parse_table("1,2,3,99999999999999999999999"),
        Err(TableError::NotACount("99999999999999999999999".to_string()))
    );
}

#[test]
fn reads_back_written_tables() {
    for &(a, b, c, d) in &[
        (0u64, 0u64, 0u64, 0u64),
        (7, 12, 8, 3),
        (450, 1, 450, 0),
        (u64::MAX, 10, 1_000_000, 9),
    ] {
        let spec = format!("{a},{b},{c},{d}");
        assert_eq!(parse_table(&spec), Ok((a, b, c, d)));
    }
}

/// Each cell is read as `str::trim` followed by `str::parse::<u64>` reads it.
#[test]
fn cells_read_as_std_trim_and_parse() {
    let cells = [
        "0", "1", "+1", "-1", "+", "-", "", " ", "12a", "a12", " 42 ", "\t9\r", "1_000",
        "0x10", "٣", "\u{85}5\u{85}", "\u{200b}5", "\u{1680}5", "\u{feff}5", "18446744073709551615",
        "18446744073709551616", "00000000000000000000001", "+-1", "++1", "1+",
    ];
    for cell in cells {
        let spec = format!("{cell},0,0,0");
        let expected = cell.trim().parse::<u64>().ok();
        match parse_table(&spec) {
            Ok((a, _, _, _)) => assert_eq!(Some(a), expected, "cell {cell:?}"),
            Err(TableError::NotACount(c)) => {
                assert_eq!(expected, None, "cell {cell:?}");
                assert_eq!(c, cell);
            }
            Err(e) => panic!("unexpected {e:?} for {cell:?}"),
        }
    }
}
