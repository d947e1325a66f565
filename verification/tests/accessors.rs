use shovel_stb::{stb_hash, InnerCellEditor, LineReplaceMode, Stb, StbError, TableLine};

fn s(x: &str) -> String {
    x.to_string()
}

fn characters() -> Stb {
    let columns = vec![s("ID"), s("Name"), s("Description"), s("Health"), s("Speed")];
    let rows = vec![
        vec![s("0"), s("Shovel Knight"), s("Digs"), s("8"), s("9.75")],
        vec![s("1"), s("Plague Knight"), s("Bombs"), s("6"), s("9.5")],
        vec![s("2"), s("Specter Knight"), s("Scythe"), s("7"), s("10")],
        vec![s("3"), s("King Knight"), s("Bashes"), s("8"), s("9")],
    ];
    Stb::from_rows(columns, rows).unwrap()
}

#[test]
fn dimensions_and_cells() {
    let stb = characters();
    assert_eq!(stb.num_rows(), 5);
    assert_eq!(stb.num_body_rows(), 4);
    assert_eq!(stb.num_cols(), 5);
    assert_eq!(stb.cell(0, 0), Some("ID"));
    assert_eq!(stb.cell(1, 1), Some("Shovel Knight"));
    assert_eq!(stb.cell(1, 3), Some("8"));
    assert_eq!(stb.cell(5, 0), None);
    assert_eq!(stb.cell(0, 5), None);
    assert_eq!(stb.cell_hash(0, 0), Some(0x9911DB53));
    assert_eq!(stb.cell_hash(1, 1), Some(stb_hash("Shovel Knight")));
    assert_eq!(stb.cell_hash(9, 0), None);
}

#[test]
fn lookups_by_name_and_index() {
    let stb = characters();
    assert_eq!(stb.column_index("Name"), Some(1));
    assert_eq!(stb.column_index("Health"), Some(3));
    assert_eq!(stb.column_index("nonexistent"), None);
    assert_eq!(stb.row_for_named_column("Name", "Specter Knight"), Some(3));
    assert_eq!(stb.row_for_named_column("Name", "NobodyHere"), None);
    assert_eq!(stb.row_for_named_column("no_such_column", "x"), None);
    assert_eq!(stb.row_for_column(1, "Plague Knight"), Some(2));
    assert_eq!(stb.row_for_column(99, "x"), None);
    assert_eq!(stb.row_for_column(3, "8"), Some(1));
    assert_eq!(stb.column_for_row(1, "8"), Some(3));
    assert_eq!(stb.column_for_row(0, "Health"), Some(3));
    assert_eq!(stb.column_for_row(7, "Health"), None);
}

#[test]
fn replace_line_inner_row_matches_set_inner_cell() {
    let mut a = characters();
    let mut b = characters();
    let r = 2usize;
    let mut inner: Vec<String> = (1..a.num_cols()).map(|c| a.cell(r, c).unwrap().to_string()).collect();
    inner[0] = s("patched");
    b.set_inner_cell(r, 1, s("patched")).unwrap();
    a.replace_line(TableLine::Row(r), LineReplaceMode::Inner, inner).unwrap();
    assert_eq!(a.cell(r, 1), Some("patched"));
    assert_eq!(a.cell(r, 2), b.cell(r, 2));
    assert_eq!(a.cell_hash(r, 1), b.cell_hash(r, 1));
}

#[test]
fn replace_line_inner_column_keeps_groups() {
    let mut stb = characters();
    let rg = stb.row_groups().to_vec();
    let cg = stb.col_groups().to_vec();
    let col = 3usize;
    let cells: Vec<String> = (0..stb.num_body_rows()).map(|br| format!("v{br}")).collect();
    stb.replace_line(TableLine::Column(col), LineReplaceMode::Inner, cells).unwrap();
    assert_eq!(stb.cell(2, col), Some("v1"));
    assert_eq!(stb.cell_hash(2, col), Some(stb_hash("v1")));
    assert_eq!(stb.row_groups(), rg.as_slice());
    assert_eq!(stb.col_groups(), cg.as_slice());
}

#[test]
fn replace_line_full_row_with_same_cells_keeps_groups() {
    let mut stb = characters();
    let rg = stb.row_groups().to_vec();
    let row: Vec<String> = (0..stb.num_cols()).map(|c| stb.cell(1, c).unwrap().to_string()).collect();
    stb.replace_line(TableLine::Row(1), LineReplaceMode::Full, row).unwrap();
    assert_eq!(stb.row_groups(), rg.as_slice());
}

#[test]
fn replace_line_full_header_row_renames_columns() {
    let mut stb = characters();
    let header: Vec<String> = (0..stb.num_cols()).map(|c| format!("H{c}")).collect();
    stb.replace_line(TableLine::Row(0), LineReplaceMode::Full, header).unwrap();
    assert_eq!(stb.column_index("H2"), Some(2));
    assert_eq!(stb.column_index("Name"), None);
    assert_eq!(stb.row_for_column(0, "H0"), Some(0));
}

#[test]
fn replace_line_rejections() {
    let mut stb = characters();
    assert!(matches!(
        stb.replace_line(TableLine::Row(0), LineReplaceMode::Inner, vec![]),
        Err(StbError::LineReplaceInvalid(_))
    ));
    assert!(matches!(
        stb.replace_line(TableLine::Column(0), LineReplaceMode::Inner, vec![]),
        Err(StbError::LineReplaceInvalid(_))
    ));
    assert!(matches!(
        stb.replace_line(TableLine::Row(1), LineReplaceMode::Full, vec![]),
        Err(StbError::LineReplaceBadLen { expected: 5, found: 0 })
    ));
    assert!(matches!(
        stb.replace_line(TableLine::Row(9), LineReplaceMode::Full, vec![]),
        Err(StbError::CellOutOfBounds { row: 9, col: 0 })
    ));
    assert!(matches!(
        stb.replace_line(TableLine::Column(9), LineReplaceMode::Full, vec![]),
        Err(StbError::CellOutOfBounds { row: 0, col: 9 })
    ));
}

#[test]
fn stb_line_get_mut_then_finish_matches_replace_line() {
    let mut a = characters();
    let mut b = characters();
    let r = 2usize;
    let mut line = a.line_mut(TableLine::Row(r), LineReplaceMode::Inner).unwrap();
    assert_eq!(line.len(), 4);
    *line.get_mut(0).unwrap() = s("patched");
    line.finish();
    let mut inner: Vec<String> = (1..b.num_cols()).map(|c| b.cell(r, c).unwrap().to_string()).collect();
    inner[0] = s("patched");
    b.replace_line(TableLine::Row(r), LineReplaceMode::Inner, inner).unwrap();
    assert_eq!(a.cell(r, 1), b.cell(r, 1));
    assert_eq!(a.cell_hash(r, 1), b.cell_hash(r, 1));
}

#[test]
fn stb_line_cross_axis_on_row() {
    let mut stb = characters();
    let mut line = stb.line_mut(TableLine::Row(2), LineReplaceMode::Full).unwrap();
    assert_eq!(line.get_by_cross_axis_key("Name").unwrap(), "Plague Knight");
    assert!(matches!(line.get_by_cross_axis_key("Nope"), Err(StbError::ColumnHeaderNotFound(_))));
    *line.get_mut_by_cross_axis_key("Name").unwrap() = s("patched");
    line.finish();
    assert_eq!(stb.cell(2, 1), Some("patched"));
    assert_eq!(stb.cell_hash(2, 1), Some(stb_hash("patched")));
}

#[test]
fn stb_line_cross_axis_on_column() {
    let mut stb = characters();
    let mut line = stb.line_mut(TableLine::Column(3), LineReplaceMode::Full).unwrap();
    assert_eq!(line.get_by_cross_axis_key("1").unwrap(), "6");
    assert!(matches!(line.get_by_cross_axis_key("zz"), Err(StbError::RowKeyNotFound(_))));
    *line.get_mut_by_cross_axis_key("1").unwrap() = s("patched");
    line.finish();
    assert_eq!(stb.cell(2, 3), Some("patched"));
}

#[test]
fn stb_line_inner_excludes_index_zero() {
    let mut stb = characters();
    let line = stb.line_mut(TableLine::Row(2), LineReplaceMode::Inner).unwrap();
    assert!(matches!(line.get_by_cross_axis_key("ID"), Err(StbError::LineCrossAxisKeyOutsideLine(_))));
    line.finish();
    let line = stb.line_mut(TableLine::Column(1), LineReplaceMode::Inner).unwrap();
    assert!(matches!(line.get_by_cross_axis_key("ID"), Err(StbError::LineCrossAxisKeyOutsideLine(_))));
    assert!(matches!(line.get(9), Err(StbError::LineIndexOutOfBounds { len: 4, index: 9 })));
    line.finish();
}

#[test]
fn stb_line_get_line_set_line_is_a_no_op() {
    let mut a = characters();
    let b = characters();
    let mut line = a.line_mut(TableLine::Column(3), LineReplaceMode::Inner).unwrap();
    let v = line.get_line();
    assert_eq!(v, vec![s("8"), s("6"), s("7"), s("8")]);
    line.set_line(v).unwrap();
    assert!(matches!(line.set_line(vec![]), Err(StbError::LineReplaceBadLen { expected: 4, found: 0 })));
    line.finish();
    assert_eq!(a.row_groups(), b.row_groups());
    assert_eq!(a.col_groups(), b.col_groups());
    assert_eq!(a.rows(), b.rows());
}

#[test]
fn inner_cell_editor_edits() {
    let mut ed = InnerCellEditor::new(characters());
    ed.set_inner_cell(3, 2, s("edited")).unwrap();
    assert!(matches!(ed.set_inner_cell(3, 0, s("x")), Err(StbError::NotInnerCell { .. })));
    assert_eq!(ed.stb().cell(3, 2), Some("edited"));
    let stb = ed.finish();
    assert_eq!(stb.cell_hash(3, 2), Some(stb_hash("edited")));
}

#[test]
fn table_as_text() {
    let stb = Stb::from_rows(vec![s("ID"), s("Name")], vec![vec![s("0"), s("Shovel Knight")]]).unwrap();
    assert_eq!(stb.to_text(), "ID\tName\n0\tShovel Knight\n");
}

#[test]
fn string_table_as_text() {
    let stl = shovel_stb::Stl::from_entries(vec![s("a"), s(""), s("b")]);
    assert_eq!(stl.to_text(), "a\n\nb\n");
}
