use xlsx_manager::cell::Cell;
use xlsx_manager::cell::CellWrite;
use xlsx_manager::cell::OutValue;
use xlsx_manager::cell::TranscodeError;
use xlsx_manager::cell::process_cell;
use xlsx_manager::date::Timestamp;
use xlsx_manager::sheet::process_rows;

fn number(v: f64) -> Cell {
    Cell::Number(v.to_bits())
}

#[test]
fn number_cell_passes_bits_through() {
    let r = process_cell(&number(1.5), 4, 2).unwrap().unwrap();
    assert_eq!(r.row, 4);
    assert_eq!(r.col, 2);
    match r.value {
        OutValue::Number(bits) => assert_eq!(f64::from_bits(bits), 1.5),
        other => panic!("expected a number write, got {:?}", other),
    }
}

#[test]
fn text_cell_keeps_exact_content() {
    let r = process_cell(&Cell::Text(String::from("  a,b\tc ")), 0, 0).unwrap().unwrap();
    assert_eq!(r.value, OutValue::Text(String::from("  a,b\tc ")));
}

#[test]
fn bool_cell_stays_bool() {
    let t = process_cell(&Cell::Bool(true), 0, 0).unwrap().unwrap();
    let f = process_cell(&Cell::Bool(false), 0, 1).unwrap().unwrap();
    assert_eq!(t.value, OutValue::Bool(true));
    assert_eq!(f.value, OutValue::Bool(false));
    assert_ne!(t.value, OutValue::Number(1.0f64.to_bits()));
    assert_ne!(t.value, OutValue::Text(String::from("true")));
}

#[test]
fn datetime_cell_decodes() {
    let c = Cell::DateTime { days: 45000, day_secs: 43200 };
    let r = process_cell(&c, 1, 3).unwrap().unwrap();
    let expected = Timestamp { year: 2023, month: 3, day: 15, hour: 12, minute: 0, second: 0 };
    assert_eq!(r.value, OutValue::Date(expected));
}

#[test]
fn bad_datetime_fails_with_position() {
    let c = Cell::DateTime { days: 99999999, day_secs: 0 };
    let r = process_cell(&c, 7, 5);
    assert_eq!(r, Err(TranscodeError::DateDecodeError { row: 7, col: 5 }));
}

#[test]
fn blank_cells_are_explicit_blanks() {
    let e = process_cell(&Cell::Error, 0, 0).unwrap().unwrap();
    let m = process_cell(&Cell::Empty, 0, 1).unwrap().unwrap();
    assert_eq!(e.value, OutValue::Blank);
    assert_eq!(m.value, OutValue::Blank);
    // A blank is distinguishable from a zero-valued number cell.
    assert_ne!(e.value, OutValue::Number(0.0f64.to_bits()));
    assert_ne!(e.value, OutValue::Text(String::new()));
}

#[test]
fn unrecognized_cell_writes_nothing() {
    assert_eq!(process_cell(&Cell::Other, 3, 3), Ok(None));
}

#[test]
fn skip_at_least_row_count_gives_empty_output() {
    let rows = vec![
        vec![number(1.0), number(2.0)],
        vec![number(3.0)],
        vec![Cell::Bool(true)],
    ];
    let same = process_rows(&rows, 3).unwrap();
    assert_eq!(same.len(), 0);
    let more = process_rows(&rows, 10).unwrap();
    assert_eq!(more.len(), 0);
}

#[test]
fn skip_below_row_count_keeps_tail_rows_in_order() {
    let rows = vec![
        vec![Cell::Text(String::from("header"))],
        vec![Cell::Text(String::from("units"))],
        vec![number(1.0), Cell::Bool(true)],
        vec![Cell::Text(String::from("x")), Cell::Empty],
    ];
    let writes = process_rows(&rows, 2).unwrap();
    let expected = vec![
        CellWrite { row: 0, col: 0, value: OutValue::Number(1.0f64.to_bits()) },
        CellWrite { row: 0, col: 1, value: OutValue::Bool(true) },
        CellWrite { row: 1, col: 0, value: OutValue::Text(String::from("x")) },
        CellWrite { row: 1, col: 1, value: OutValue::Blank },
    ];
    assert_eq!(writes, expected);
}

#[test]
fn skip_zero_keeps_every_row() {
    let rows = vec![vec![number(7.25)], vec![Cell::Bool(false)]];
    let writes = process_rows(&rows, 0).unwrap();
    assert_eq!(
        writes,
        vec![
            CellWrite { row: 0, col: 0, value: OutValue::Number(7.25f64.to_bits()) },
            CellWrite { row: 1, col: 0, value: OutValue::Bool(false) },
        ]
    );
}

#[test]
fn unrecognized_cells_leave_gaps() {
    let rows = vec![vec![Cell::Other, number(2.0), Cell::Other]];
    let writes = process_rows(&rows, 0).unwrap();
    assert_eq!(writes, vec![CellWrite { row: 0, col: 1, value: OutValue::Number(2.0f64.to_bits()) }]);
}

#[test]
fn date_failure_aborts_sheet_with_source_position() {
    let rows = vec![
        vec![number(1.0)],
        vec![number(2.0), Cell::DateTime { days: 99999999, day_secs: 0 }],
        vec![Cell::DateTime { days: 88888888, day_secs: 0 }],
    ];
    // Row 0 is skipped; the first failing cell is at source row 1, column 1.
    let r = process_rows(&rows, 1);
    assert_eq!(r, Err(TranscodeError::DateDecodeError { row: 1, col: 1 }));
}

#[test]
fn empty_sheet_transcodes_to_nothing() {
    let rows: Vec<Vec<Cell>> = Vec::new();
    assert_eq!(process_rows(&rows, 0), Ok(Vec::new()));
}
