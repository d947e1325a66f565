use shovel_stb::stb_csv::{csv_dimensions_fit, parse_csv_records, strip_utf8_bom};
use shovel_stb::{Stb, StbError};

fn s(x: &str) -> String {
    x.to_string()
}

fn table() -> Stb {
    Stb::from_rows(
        vec![s("ID"), s("Name"), s("Note")],
        vec![
            vec![s("a"), s("Shovel Knight"), s("plain")],
            vec![s("b"), s(""), s("comma, inside")],
            vec![s("c"), s("say \"hi\""), s("two\r\nlines")],
            vec![s(""), s("ünïcödé"), s("")],
        ],
    )
    .unwrap()
}

#[test]
fn csv_write_text() {
    let t = Stb::from_rows(vec![s("H"), s("I")], vec![vec![s("x,y"), s("")]]).unwrap();
    assert_eq!(t.write_csv(false), b"H,I\n\"x,y\",\n".to_vec());
    assert_eq!(t.write_csv(true), b"\xEF\xBB\xBFH,I\n\"x,y\",\n".to_vec());
}

#[test]
fn csv_round_trip_with_and_without_bom() {
    let original = table();
    let with_bom = original.write_csv(true);
    assert_eq!(&with_bom[..3], b"\xEF\xBB\xBF");
    let restored = Stb::read_csv(&with_bom).unwrap();
    assert_eq!(restored.columns(), original.columns());
    assert_eq!(restored.rows(), original.rows());
    assert_eq!(restored.row_groups(), original.row_groups());
    assert_eq!(restored.col_groups(), original.col_groups());

    let no_bom = original.write_csv(false);
    assert_ne!(&no_bom[..3], b"\xEF\xBB\xBF");
    let restored2 = Stb::read_csv(&no_bom).unwrap();
    assert_eq!(restored2.columns(), original.columns());
    assert_eq!(restored2.rows(), original.rows());
}

#[test]
fn csv_to_binary_and_back() {
    let original = table();
    let csv = original.write_csv(true);
    let from_csv = Stb::read_csv(&csv).unwrap();
    let bin = from_csv.write_stb();
    let reparsed = Stb::read(&bin).unwrap();
    assert_eq!(reparsed.columns(), original.columns());
    assert_eq!(reparsed.rows(), original.rows());
    assert_eq!(reparsed.row_groups(), original.row_groups());
}

#[test]
fn csv_empty_input_is_an_error() {
    match Stb::read_csv(b"") {
        Err(StbError::CsvRead(m)) => assert_eq!(m, "STB CSV is empty (missing header row)"),
        other => panic!("unexpected: {other:?}"),
    }
    match Stb::read_csv(b"\xEF\xBB\xBF\r\n\n") {
        Err(StbError::CsvRead(m)) => assert_eq!(m, "STB CSV is empty (missing header row)"),
        other => panic!("unexpected: {other:?}"),
    }
}

#[test]
fn csv_invalid_utf8_is_an_error() {
    match Stb::read_csv(b"A,B\n\xFF,x\n") {
        Err(StbError::CsvRead(m)) => assert_eq!(
            m,
            "invalid UTF-8 in CSV cell: invalid utf-8 sequence of 1 bytes from index 0"
        ),
        other => panic!("unexpected: {other:?}"),
    }
}

#[test]
fn csv_ragged_rows_are_an_error() {
    match Stb::read_csv(b"A,B\n1,2\n3\n") {
        Err(StbError::Rectangular { data_row, expected, found }) => {
            assert_eq!((data_row, expected, found), (1, 2, 1));
        }
        other => panic!("unexpected: {other:?}"),
    }
}

#[test]
fn csv_parser_rules() {
    let rs = parse_csv_records(b"a,\"b\"\"c\",d\r\n\r\n\"x\ny\"z,,\n\"\"\nlast").unwrap();
    assert_eq!(
        rs,
        vec![
            vec![s("a"), s("b\"c"), s("d")],
            vec![s("x\nyz"), s(""), s("")],
            vec![s("")],
            vec![s("last")],
        ]
    );
    assert_eq!(parse_csv_records(b"").unwrap(), Vec::<Vec<String>>::new());
    assert_eq!(
        parse_csv_records(b"ok,\xC3\n,\xFF\n").unwrap_err(),
        "incomplete utf-8 byte sequence from index 0"
    );
}

#[test]
fn bom_is_stripped_once() {
    assert_eq!(strip_utf8_bom(b"\xEF\xBB\xBFabc"), b"abc");
    assert_eq!(strip_utf8_bom(b"\xEF\xBB\xBF\xEF\xBB\xBFabc"), b"\xEF\xBB\xBFabc");
    assert_eq!(strip_utf8_bom(b"\xEF\xBBabc"), b"\xEF\xBBabc");
    assert_eq!(strip_utf8_bom(b""), b"");
}

#[test]
fn csv_dimensions_are_checked() {
    assert!(csv_dimensions_fit(b""));
    assert!(csv_dimensions_fit(b"\xEF\xBB\xBFa,b\n1,2\n"));
}

#[test]
fn write_line_strings_checks_length_first() {
    let mut t = Stb::from_rows(vec![s("A"), s("B")], vec![vec![s("1"), s("2")]]).unwrap();
    let r = t.write_line_strings(shovel_stb::TableLine::Row(0), shovel_stb::LineReplaceMode::Inner, vec![]);
    assert!(matches!(r, Err(StbError::LineReplaceBadLen { expected: 1, found: 0 })));
    assert_eq!(t.cell(0, 1), Some("B"));
    let r = t.write_line_strings(shovel_stb::TableLine::Column(0), shovel_stb::LineReplaceMode::Inner, vec![s("k")]);
    assert!(r.is_ok());
    assert_eq!(t.cell(1, 0), Some("k"));
}
