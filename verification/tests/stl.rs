use shovel_stb::stb_read::StbReadError;
use shovel_stb::stl::StlCsvError;
use shovel_stb::Stl;

fn entries(n: usize) -> Vec<String> {
    (0..n)
        .map(|i| match i % 4 {
            0 => format!("Line {i}"),
            1 => String::new(),
            2 => format!("Ünïcode “quote” {i}, with comma"),
            _ => "y".repeat(i % 17),
        })
        .collect()
}

fn stl_binary_round_trip(stl: &Stl) {
    let written = stl.write_stl();
    let parsed = Stl::read(&written).unwrap();
    assert_eq!(parsed.entries, stl.entries);
    assert_eq!(parsed.num_entries(), stl.num_entries());
    let rewritten = parsed.write_stl();
    assert_eq!(written, rewritten, "STL byte mismatch");
}

#[test]
fn tests_stl_binary_round_trip_dialogue() {
    stl_binary_round_trip(&Stl::from_entries(entries(2923)));
}

#[test]
fn tests_stl_binary_round_trip_menus() {
    stl_binary_round_trip(&Stl::from_entries(entries(3162)));
}

#[test]
fn stl_stl_binary_round_trip_dialogue() {
    stl_binary_round_trip(&Stl::from_entries(entries(2923)));
}

#[test]
fn stl_stl_binary_round_trip_menus() {
    stl_binary_round_trip(&Stl::from_entries(entries(3162)));
}

#[test]
fn tests_stl_csv_rejects_multi_column() {
    let csv_data = b"A,B\n1,2\n3,4\n";
    let result = Stl::read_csv(csv_data);
    assert!(result.is_err());
    let err = result.unwrap_err().message();
    assert!(err.contains("exactly 1 column"), "unexpected error: {err}");
}

#[test]
fn stl_stl_csv_rejects_multi_column() {
    let csv_data = b"A,B\n1,2\n3,4\n";
    let result = Stl::read_csv(csv_data);
    assert!(result.is_err());
    let err = result.unwrap_err().message();
    assert!(err.contains("exactly 1 column"), "unexpected error: {err}");
}

#[test]
fn column_count_message_names_the_count() {
    match Stl::read_csv(b"A,B,C\n") {
        Err(e @ StlCsvError::ColumnCount { found: 3 }) => {
            assert_eq!(e.message(), "STL CSV must have exactly 1 column, found 3");
        }
        other => panic!("unexpected: {:?}", other.map(|s| s.entries)),
    }
    match Stl::read_csv(b"") {
        Err(StlCsvError::ColumnCount { found: 0 }) => {}
        other => panic!("unexpected: {:?}", other.map(|s| s.entries)),
    }
}

#[test]
fn stl_layout_of_two_entries() {
    let stl = Stl::from_entries(vec!["Hi".to_string(), String::new()]);
    let b = stl.write_stl();
    // Header (0x18), two offsets, then "Hi\0" padded to eight bytes.
    assert_eq!(b.len(), 0x18 + 16 + 8);
    assert_eq!(&b[0..8], &[0; 8]);
    assert_eq!(&b[8..12], &2u32.to_le_bytes());
    assert_eq!(&b[12..16], &1u32.to_le_bytes());
    assert_eq!(&b[16..24], &0x18u64.to_le_bytes());
    assert_eq!(&b[24..32], &0x28u64.to_le_bytes());
    assert_eq!(&b[32..40], &0u64.to_le_bytes());
    assert_eq!(&b[40..48], b"Hi\0\0\0\0\0\0");
}

#[test]
fn stl_read_errors() {
    assert!(matches!(Stl::read(&[0u8; 10]), Err(StbReadError::UnexpectedEof)));
    let stl = Stl::from_entries(vec!["abc".to_string()]);
    let mut b = stl.write_stl();
    let n = b.len();
    assert!(matches!(Stl::read(&b[..n - 8]), Err(StbReadError::UnexpectedEof)));
    b[0x20] = 0xC3;
    b[0x21] = 0x28;
    assert!(matches!(Stl::read(&b), Err(StbReadError::InvalidUtf8 { index: 0 })));
}

#[test]
fn stl_csv_round_trip_small() {
    let stl = Stl::from_entries(vec![
        "plain".to_string(),
        String::new(),
        "with, comma".to_string(),
        "with \"quotes\"".to_string(),
        "two\nlines".to_string(),
    ]);
    for bom in [true, false] {
        let csv = stl.write_csv(bom);
        assert_eq!(&csv[..3] == b"\xEF\xBB\xBF", bom);
        let back = Stl::read_csv(&csv).unwrap();
        assert_eq!(back.entries, stl.entries);
    }
}

#[test]
fn stl_csv_text() {
    let stl = Stl::from_entries(vec!["a".to_string(), "b,c".to_string(), String::new()]);
    let csv = stl.write_csv(false);
    assert_eq!(csv, b"Text\na\n\"b,c\"\n\"\"\n".to_vec());
}

#[test]
fn stl_csv_reader_errors_are_reported() {
    match Stl::read_csv(b"Text\na,b\n") {
        Err(StlCsvError::Csv(_)) => {}
        other => panic!("unexpected: {:?}", other.map(|s| s.entries)),
    }
    match Stl::read_csv(b"Te\xFFxt\na\n") {
        Err(StlCsvError::Csv(_)) => {}
        other => panic!("unexpected: {:?}", other.map(|s| s.entries)),
    }
}

#[test]
fn stl_csv_then_binary_pipeline() {
    let original = Stl::from_entries(entries(300));
    let csv = original.write_csv(false);
    let from_csv = Stl::read_csv(&csv).unwrap();
    let bin = from_csv.write_stl();
    let reparsed = Stl::read(&bin).unwrap();
    assert_eq!(reparsed.entries, original.entries);
}
