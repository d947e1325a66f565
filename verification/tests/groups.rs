use shovel_stb::groups::{bucket_index_for_hash, group_bucket_count};
use shovel_stb::{stb_hash, Stb, StbError, StbInnerCells, StbTablesValidation, TablesMismatchKind};

fn s(x: &str) -> String {
    x.to_string()
}

/// A small character table: a header row and four data rows.
fn characters() -> Stb {
    let columns = vec![s("ID"), s("Name"), s("Description"), s("Health"), s("Speed")];
    let rows = vec![
        vec![s("0"), s("Shovel Knight"), s("Digs"), s("8"), s("9.75")],
        vec![s("1"), s("Plague Knight"), s("Bombs"), s("6"), s("9.5")],
        vec![s("2"), s("Specter Knight"), s("Scythe"), s("7"), s("10")],
        vec![s("3"), s("King Knight"), s("Bashes"), s("8"), s("9")],
    ];
    Stb::from_rows(columns, rows).unwrap()
}

#[test]
fn tests_from_tables_full_rejects_bad_hashes() {
    let columns = vec!["H".to_string()];
    let rows = vec![vec!["cell".to_string()]];
    let ok = Stb::from_rows(columns.clone(), rows.clone()).unwrap();
    let mut bad_hashes = vec![vec![stb_hash("H")], vec![stb_hash("cell")]];
    bad_hashes[1][0] ^= 0xDEAD_BEEF;
    let r = Stb::from_tables(
        columns,
        rows,
        bad_hashes,
        ok.row_groups().to_vec(),
        ok.col_groups().to_vec(),
        StbTablesValidation::Full,
    );
    assert!(matches!(r, Err(StbError::TablesMismatch(TablesMismatchKind::CellHashes))));
}

#[test]
fn groups_from_tables_full_rejects_bad_hashes() {
    let columns = vec!["H".to_string()];
    let rows = vec![vec!["cell".to_string()]];
    let ok = Stb::from_rows(columns.clone(), rows.clone()).unwrap();
    let mut bad_hashes = vec![vec![stb_hash("H")], vec![stb_hash("cell")]];
    bad_hashes[1][0] ^= 0xDEAD_BEEF;
    let r = Stb::from_tables(
        columns,
        rows,
        bad_hashes,
        ok.row_groups().to_vec(),
        ok.col_groups().to_vec(),
        StbTablesValidation::Full,
    );
    assert!(matches!(r, Err(StbError::TablesMismatch(TablesMismatchKind::CellHashes))));
}

#[test]
fn tests_from_tables_dimensions_only_accepts_bad_hashes() {
    let columns = vec!["H".to_string()];
    let rows = vec![vec!["cell".to_string()]];
    let ok = Stb::from_rows(columns.clone(), rows.clone()).unwrap();
    let mut bad_hashes = vec![vec![stb_hash("H")], vec![stb_hash("cell")]];
    let corrupt = bad_hashes[1][0] ^ 0xDEAD_BEEF;
    bad_hashes[1][0] = corrupt;
    let stb = Stb::from_tables(
        columns,
        rows,
        bad_hashes,
        ok.row_groups().to_vec(),
        ok.col_groups().to_vec(),
        StbTablesValidation::DimensionsOnly,
    )
    .unwrap();
    assert_eq!(stb.cell_hash(1, 0), Some(corrupt));
}

#[test]
fn groups_from_tables_dimensions_only_accepts_bad_hashes() {
    let columns = vec!["H".to_string()];
    let rows = vec![vec!["cell".to_string()]];
    let ok = Stb::from_rows(columns.clone(), rows.clone()).unwrap();
    let mut bad_hashes = vec![vec![stb_hash("H")], vec![stb_hash("cell")]];
    let corrupt = bad_hashes[1][0] ^ 0xDEAD_BEEF;
    bad_hashes[1][0] = corrupt;
    let stb = Stb::from_tables(
        columns,
        rows,
        bad_hashes,
        ok.row_groups().to_vec(),
        ok.col_groups().to_vec(),
        StbTablesValidation::DimensionsOnly,
    )
    .unwrap();
    assert_eq!(stb.cell_hash(1, 0), Some(corrupt));
}

#[test]
fn from_tables_rejects_mismatched_row_groups() {
    let ok = characters();
    let mut rg = ok.row_groups().to_vec();
    rg[0].entries.reverse();
    let hashes: Vec<Vec<u32>> = (0..ok.num_rows())
        .map(|r| (0..ok.num_cols()).map(|c| ok.cell_hash(r, c).unwrap()).collect())
        .collect();
    let r = Stb::from_tables(
        ok.columns().to_vec(),
        ok.rows().to_vec(),
        hashes,
        rg,
        ok.col_groups().to_vec(),
        StbTablesValidation::Full,
    );
    assert!(matches!(r, Err(StbError::TablesMismatch(TablesMismatchKind::RowGroups))));
}

#[test]
fn from_tables_rejects_short_hash_rows() {
    let r = Stb::from_tables(
        vec![s("A"), s("B")],
        vec![vec![s("x"), s("y")]],
        vec![vec![stb_hash("A"), stb_hash("B")], vec![stb_hash("x")]],
        vec![],
        vec![],
        StbTablesValidation::DimensionsOnly,
    );
    assert!(matches!(r, Err(StbError::InternalInvariant(_))));
}

#[test]
fn from_rows_rejects_ragged_rows() {
    let r = Stb::from_rows(vec![s("A"), s("B")], vec![vec![s("1"), s("2")], vec![s("3")]]);
    match r {
        Err(StbError::Rectangular { data_row, expected, found }) => {
            assert_eq!((data_row, expected, found), (1, 2, 1));
        }
        other => panic!("unexpected: {other:?}"),
    }
}

#[test]
fn bucket_count_and_index() {
    assert_eq!(group_bucket_count(0), 1);
    assert_eq!(group_bucket_count(2), 1);
    assert_eq!(group_bucket_count(5), 1);
    assert_eq!(group_bucket_count(20), 6);
    assert_eq!(group_bucket_count(21), 7);
    assert_eq!(bucket_index_for_hash(10, 21), 3);
    assert_eq!(bucket_index_for_hash(0x9911DB53, 17), 0x9911DB53 % 5);
}

#[test]
fn row_and_col_group_counts_follow_dimensions() {
    let stb = characters();
    assert_eq!(stb.row_groups().len(), group_bucket_count(stb.num_rows()));
    assert_eq!(stb.col_groups().len(), group_bucket_count(stb.num_cols()));
    let has_id_entry = stb
        .col_groups()
        .iter()
        .any(|g| g.entries.iter().any(|e| e.index == 0 && e.hash == 0x9911DB53));
    assert!(has_id_entry);
}

#[test]
fn bucket_lookup_agrees_with_linear_scan() {
    let stb = characters();
    let nc = stb.num_cols();
    let nr = stb.num_rows();
    for c in 0..nc {
        let header = stb.cell(0, c).unwrap().to_string();
        assert_eq!(stb.column_index(&header), Some(c));
        let h = stb_hash(&header);
        assert!(stb
            .col_group_bucket_for_key(&header)
            .entries
            .iter()
            .any(|e| e.index as usize == c && e.hash == h));
        assert_eq!(
            bucket_index_for_hash(h, nc),
            stb.col_groups()
                .iter()
                .position(|g| g.entries.iter().any(|e| e.index as usize == c && e.hash == h))
                .unwrap()
        );
    }
    for r in 0..nr {
        let key = stb.cell(r, 0).unwrap().to_string();
        assert_eq!((0..nr).find(|&row| stb.cell(row, 0) == Some(key.as_str())), stb.row_for_column(0, &key));
        let h = stb_hash(&key);
        assert!(stb
            .row_group_bucket_for_key(&key)
            .entries
            .iter()
            .any(|e| e.index as usize == r && e.hash == h));
    }
}

#[test]
fn set_inner_cell_keeps_groups() {
    let mut stb = characters();
    let rg = stb.row_groups().to_vec();
    let cg = stb.col_groups().to_vec();
    stb.set_inner_cell(1, 3, s("999")).unwrap();
    assert_eq!(stb.cell(1, 3), Some("999"));
    assert_eq!(stb.cell_hash(1, 3), Some(stb_hash("999")));
    assert_eq!(stb.row_groups(), rg.as_slice());
    assert_eq!(stb.col_groups(), cg.as_slice());
}

#[test]
fn set_inner_cell_errors() {
    let mut stb = characters();
    assert!(matches!(stb.set_inner_cell(0, 1, s("x")), Err(StbError::NotInnerCell { row: 0, col: 1 })));
    assert!(matches!(stb.set_inner_cell(2, 0, s("x")), Err(StbError::NotInnerCell { row: 2, col: 0 })));
    assert!(matches!(stb.set_inner_cell(9, 1, s("x")), Err(StbError::CellOutOfBounds { row: 9, col: 1 })));
}

#[test]
fn set_row_key_changes_row_groups_only() {
    let mut stb = characters();
    let cg = stb.col_groups().to_vec();
    let rg = stb.row_groups().to_vec();
    stb.set_row_key(1, s("ROWKEY_TEST")).unwrap();
    assert_eq!(stb.cell(1, 0), Some("ROWKEY_TEST"));
    assert_eq!(stb.cell_hash(1, 0), Some(stb_hash("ROWKEY_TEST")));
    assert_eq!(stb.col_groups(), cg.as_slice());
    assert_ne!(stb.row_groups(), rg.as_slice());
    assert_eq!(stb.row_for_column(0, "ROWKEY_TEST"), Some(1));
}

#[test]
fn set_row_key_rejects_header() {
    let mut stb = characters();
    assert!(matches!(stb.set_row_key(0, s("nope")), Err(StbError::RowKeyRequiresDataRow { row: 0 })));
    assert!(matches!(stb.set_row_key(7, s("nope")), Err(StbError::CellOutOfBounds { row: 7, col: 0 })));
}

#[test]
fn set_column_key_on_inner_column() {
    let mut stb = characters();
    let rg = stb.row_groups().to_vec();
    stb.set_column_key(3, s("RenamedCol")).unwrap();
    assert_eq!(stb.columns()[3], "RenamedCol");
    assert_eq!(stb.cell_hash(0, 3), Some(stb_hash("RenamedCol")));
    assert_eq!(stb.row_groups(), rg.as_slice());
    assert_eq!(stb.column_index("RenamedCol"), Some(3));
    assert_eq!(stb.column_index("Health"), None);
}

#[test]
fn set_column_key_on_first_column() {
    let mut stb = characters();
    let rg = stb.row_groups().to_vec();
    stb.set_column_key(0, s("ID_RENAME")).unwrap();
    assert_eq!(stb.columns()[0], "ID_RENAME");
    assert_ne!(stb.row_groups(), rg.as_slice());
    assert_eq!(stb.row_for_column(0, "ID_RENAME"), Some(0));
    assert!(matches!(stb.set_column_key(5, s("x")), Err(StbError::CellOutOfBounds { row: 0, col: 5 })));
}

#[test]
fn inner_cells_session_edits() {
    let stb = characters();
    let mut ed = StbInnerCells::new(stb);
    ed.set_inner_cell(2, 2, s("edited")).unwrap();
    assert!(ed.set_inner_cell(0, 2, s("x")).is_err());
    let stb = ed.finish();
    assert_eq!(stb.cell(2, 2), Some("edited"));
    assert_eq!(stb.cell_hash(2, 2), Some(stb_hash("edited")));
}

#[test]
fn inner_cells_session_matches_direct_edits() {
    let s0 = characters();
    let edits: Vec<(usize, usize, &str)> =
        vec![(1, 1, "a"), (0, 3, "b"), (2, 0, "c"), (3, 2, "d"), (99, 1, "e"), (1, 1, "f")];
    let mut ed = StbInnerCells::new(s0.clone());
    let mut direct = s0.clone();
    for (r, c, v) in &edits {
        let x = ed.set_inner_cell(*r, *c, s(v));
        let y = direct.set_inner_cell(*r, *c, s(v));
        assert_eq!(format!("{:?}", x), format!("{:?}", y));
    }
    let done = ed.finish();
    assert_eq!(done, direct);
    assert_eq!(done.row_groups(), s0.row_groups());
    assert_eq!(done.col_groups(), s0.col_groups());
    assert_eq!(done.cell(1, 1), Some("f"));
    assert_eq!(done.cell_hash(3, 2), Some(stb_hash("d")));
}

#[test]
fn from_tables_rejects_mismatched_col_groups() {
    let ok = characters();
    let mut cg = ok.col_groups().to_vec();
    cg[0].entries.reverse();
    let hashes: Vec<Vec<u32>> = (0..ok.num_rows())
        .map(|r| (0..ok.num_cols()).map(|c| ok.cell_hash(r, c).unwrap()).collect())
        .collect();
    let r = Stb::from_tables(
        ok.columns().to_vec(),
        ok.rows().to_vec(),
        hashes,
        ok.row_groups().to_vec(),
        cg,
        StbTablesValidation::Full,
    );
    assert!(matches!(r, Err(StbError::TablesMismatch(TablesMismatchKind::ColGroups))));
}

#[test]
fn error_messages() {
    let e = Stb::from_rows(vec![s("A"), s("B")], vec![vec![s("1")]]).unwrap_err();
    assert_eq!(e.message(), "row 0 has 1 cells, expected 2 (header width)");
    let mut stb = characters();
    let e = stb.set_inner_cell(0, 12, s("x")).unwrap_err();
    assert_eq!(
        e.message(),
        "inner-cell edits cannot target header row or first column (row=0, col=12)"
    );
    let e = stb.set_inner_cell(40, 2, s("x")).unwrap_err();
    assert_eq!(e.message(), "cell index out of bounds (row=40, col=2)");
    let e = stb.set_row_key(0, s("x")).unwrap_err();
    assert_eq!(e.message(), "set_row_key requires table row >= 1 (data row), got 0");
    assert_eq!(
        StbError::TablesMismatch(TablesMismatchKind::RowGroups).message(),
        "row_groups do not match cell_hashes"
    );
    assert_eq!(
        StbError::LineReplaceBadLen { expected: 17, found: 0 }.message(),
        "line edit expected 17 cell(s), got 0"
    );
    assert_eq!(
        StbError::LineIndexOutOfBounds { len: 4, index: 105 }.message(),
        "line index 105 out of bounds (len 4)"
    );
    assert_eq!(StbError::ColumnHeaderNotFound(s("Hp")).message(), "no column with header `Hp`");
    assert_eq!(StbError::CsvRead(s("bad")).message(), "bad");
}
