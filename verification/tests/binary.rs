use shovel_stb::stb_read::{read_hits_empty_dimension, StbReadError};
use shovel_stb::{stb_hash, Stb};

fn s(x: &str) -> String {
    x.to_string()
}

/// A table of `nr` data rows and `nc` columns with varied cell contents.
fn synthetic(nr: usize, nc: usize, first_header: &str) -> Stb {
    let columns: Vec<String> = (0..nc)
        .map(|c| if c == 0 { s(first_header) } else { format!("Col{c}") })
        .collect();
    let rows: Vec<Vec<String>> = (0..nr)
        .map(|r| {
            (0..nc)
                .map(|c| match (r + c) % 5 {
                    0 => format!("key_{r}"),
                    1 => String::new(),
                    2 => format!("Knight #{r} — “{c}”"),
                    3 => format!("{}", r * 7 + c),
                    _ => "x".repeat(r % 13),
                })
                .collect()
        })
        .collect();
    Stb::from_rows(columns, rows).unwrap()
}

/// Writing, reading back and writing again gives the same bytes and the same table.
fn binary_round_trip(stb: &Stb) {
    let written = stb.write_stb();
    let parsed = Stb::read(&written).unwrap();
    assert_eq!(parsed.columns(), stb.columns());
    assert_eq!(parsed.rows(), stb.rows());
    assert_eq!(parsed.row_groups(), stb.row_groups());
    assert_eq!(parsed.col_groups(), stb.col_groups());
    for r in 0..stb.num_rows() {
        for c in 0..stb.num_cols() {
            assert_eq!(parsed.cell_hash(r, c), stb.cell_hash(r, c));
        }
    }
    let rewritten = parsed.write_stb();
    assert_eq!(written, rewritten, "byte mismatch");
}

#[test]
fn tests_stb_binary_round_trip_character_attributes() {
    binary_round_trip(&synthetic(20, 17, "ID"));
}

#[test]
fn tests_stb_binary_round_trip_character_entry() {
    binary_round_trip(&synthetic(31, 44, "ID"));
}

#[test]
fn tests_stb_binary_round_trip_speakers() {
    binary_round_trip(&synthetic(225, 23, "ID"));
}

#[test]
fn tests_stb_binary_round_trip_passerby() {
    binary_round_trip(&synthetic(150, 8, "ID"));
}

#[test]
fn tests_stb_binary_round_trip_credits() {
    binary_round_trip(&synthetic(361, 20, "Format"));
}

#[test]
fn tests_stm_binary_round_trip_dialogue() {
    binary_round_trip(&synthetic(40, 8, ""));
}

#[test]
fn tests_stm_binary_round_trip_menus() {
    binary_round_trip(&synthetic(60, 1, "ID"));
}

#[test]
fn binary_stb_binary_round_trip_character_attributes() {
    binary_round_trip(&synthetic(20, 17, "ID"));
}

#[test]
fn binary_stb_binary_round_trip_character_entry() {
    binary_round_trip(&synthetic(31, 44, "ID"));
}

#[test]
fn binary_stb_binary_round_trip_speakers() {
    binary_round_trip(&synthetic(225, 23, "ID"));
}

#[test]
fn binary_stb_binary_round_trip_passerby() {
    binary_round_trip(&synthetic(150, 8, "ID"));
}

#[test]
fn binary_stb_binary_round_trip_credits() {
    binary_round_trip(&synthetic(361, 20, "Format"));
}

#[test]
fn binary_stm_binary_round_trip_dialogue() {
    binary_round_trip(&synthetic(40, 8, ""));
}

#[test]
fn binary_stm_binary_round_trip_menus() {
    binary_round_trip(&synthetic(60, 1, "ID"));
}

fn u32_at(b: &[u8], off: usize) -> u32 {
    u32::from_le_bytes([b[off], b[off + 1], b[off + 2], b[off + 3]])
}

fn u64_at(b: &[u8], off: usize) -> u64 {
    let mut a = [0u8; 8];
    a.copy_from_slice(&b[off..off + 8]);
    u64::from_le_bytes(a)
}

#[test]
fn one_cell_table_layout() {
    let stb = Stb::from_rows(vec![s("A")], vec![]).unwrap();
    let b = stb.write_stb();
    // Header, one hash padded to 8, one offset, "A\0" padded to 8, then two group
    // tables of one group each (offset + count + entry size + one entry).
    assert_eq!(b.len(), 0x98);
    assert_eq!(u64_at(&b, 0), 0);
    assert_eq!(u32_at(&b, 8), 1);
    assert_eq!(u32_at(&b, 12), 1);
    assert_eq!(u64_at(&b, 16), 0x40);
    assert_eq!(u64_at(&b, 24), 0x48);
    assert_eq!(u32_at(&b, 36), 1);
    assert_eq!(u64_at(&b, 40), 0x58);
    assert_eq!(u32_at(&b, 52), 1);
    assert_eq!(u64_at(&b, 56), 0x78);
    assert_eq!(u32_at(&b, 0x40), stb_hash("A"));
    assert_eq!(&b[0x44..0x48], &[0, 0, 0, 0]);
    assert_eq!(u64_at(&b, 0x48), 0x50);
    assert_eq!(&b[0x50..0x58], b"A\0\0\0\0\0\0\0");
    assert_eq!(u64_at(&b, 0x58), 0x60);
    assert_eq!(u64_at(&b, 0x60), 1);
    assert_eq!(u64_at(&b, 0x68), 0x10);
    assert_eq!(u32_at(&b, 0x70), 0);
    assert_eq!(u32_at(&b, 0x74), stb_hash("A"));
    assert_eq!(u64_at(&b, 0x78), 0x80);
}

#[test]
fn empty_cells_point_at_offset_zero() {
    let stb = Stb::from_rows(vec![s("K"), s("")], vec![vec![s(""), s("v")]]).unwrap();
    let b = stb.write_stb();
    // Four cells: hashes end at 0x50 (already aligned), offsets at 0x50..0x70.
    assert_eq!(u64_at(&b, 24), 0x50);
    assert_eq!(u64_at(&b, 0x50), 0x70);
    assert_eq!(u64_at(&b, 0x58), 0);
    assert_eq!(u64_at(&b, 0x60), 0);
    assert_eq!(u64_at(&b, 0x68), 0x78);
    assert_eq!(u32_at(&b, 0x44), 0);
    let back = Stb::read(&b).unwrap();
    assert_eq!(back.cell(0, 1), Some(""));
    assert_eq!(back.cell(1, 0), Some(""));
    assert_eq!(back.cell(1, 1), Some("v"));
}

#[test]
fn read_rejects_truncated_file() {
    let stb = Stb::from_rows(vec![s("A"), s("B")], vec![vec![s("1"), s("2")]]).unwrap();
    let b = stb.write_stb();
    assert!(matches!(Stb::read(&b[..0x20]), Err(StbReadError::UnexpectedEof)));
    assert!(matches!(Stb::read(&b[..b.len() - 1]), Err(StbReadError::UnexpectedEof)));
}

#[test]
fn read_rejects_bad_hash() {
    let stb = Stb::from_rows(vec![s("A"), s("B")], vec![vec![s("1"), s("2")]]).unwrap();
    let mut b = stb.write_stb();
    b[0x40 + 4 * 3] ^= 0xFF;
    match Stb::read(&b) {
        Err(StbReadError::HashMismatch { index, found, expected }) => {
            assert_eq!(index, 3);
            assert_eq!(expected, stb_hash("2"));
            assert_eq!(found, stb_hash("2") ^ 0xFF);
        }
        other => panic!("unexpected: {:?}", other.map(|_| ())),
    }
}

#[test]
fn read_rejects_invalid_utf8() {
    let stb = Stb::from_rows(vec![s("AB")], vec![]).unwrap();
    let mut b = stb.write_stb();
    // The only string sits at 0x50.
    b[0x50] = 0xFF;
    assert!(matches!(Stb::read(&b), Err(StbReadError::InvalidUtf8 { index: 0 })));
}

#[test]
fn read_rejects_corrupt_row_groups() {
    let stb = Stb::from_rows(vec![s("A")], vec![vec![s("x")], vec![s("y")]]).unwrap();
    let mut b = stb.write_stb();
    let rgo = u64_at(&b, 40) as usize;
    let first = u64_at(&b, rgo) as usize;
    // Swap the two entries' indices of the single row group.
    b[first + 16] ^= 1;
    b[first + 24] ^= 1;
    assert!(matches!(Stb::read(&b), Err(StbReadError::RowGroupsMismatch)));
}

#[test]
fn read_rejects_corrupt_col_groups() {
    let stb = Stb::from_rows(vec![s("A"), s("B")], vec![vec![s("x"), s("y")]]).unwrap();
    let mut b = stb.write_stb();
    let cgo = u64_at(&b, 56) as usize;
    let first = u64_at(&b, cgo) as usize;
    b[first + 16] ^= 1;
    b[first + 24] ^= 1;
    assert!(matches!(Stb::read(&b), Err(StbReadError::ColGroupsMismatch)));
}

#[test]
fn empty_dimensions_are_detected() {
    let stb = Stb::from_rows(vec![s("A")], vec![]).unwrap();
    let mut b = stb.write_stb();
    assert!(!read_hits_empty_dimension(&b));
    assert!(!read_hits_empty_dimension(&b[..0x30]));
    b[8] = 0;
    assert!(read_hits_empty_dimension(&b));
}
