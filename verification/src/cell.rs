//! Per-cell transcoding.
//!
//! A source cell is a tagged value.  Numeric cells carry the IEEE-754 bit
//! pattern of their value and are passed through untouched; date-time cells
//! carry the split serial value and are decoded to a calendar timestamp;
//! error and empty cells become an explicit blank; an unrecognized cell
//! produces no write at all.

use vstd::prelude::*;
use crate::date::{Timestamp, decoded_timestamp, excel_serial_to_naive_datetime};

verus! {

/// One source cell, as read from a sheet.
#[derive(Debug, Clone, PartialEq)]
pub enum Cell {
    /// A numeric value, held as its IEEE-754 bit pattern.
    Number(u64),
    Text(String),
    Bool(bool),
    /// A serial date split into whole days from the epoch and seconds of
    /// the day (the day fraction rounded to whole seconds).
    DateTime { days: i64, day_secs: i64 },
    Error,
    Empty,
    /// A cell kind the transcoder does not recognize.
    Other,
}

/// One output value, as written to a sheet.
#[derive(Debug, Clone, PartialEq)]
pub enum OutValue {
    Number(u64),
    Text(String),
    Bool(bool),
    Date(Timestamp),
    Blank,
}

/// One write call against an output sheet: a value at a position.
#[derive(Debug, Clone, PartialEq)]
pub struct CellWrite {
    pub row: usize,
    pub col: usize,
    pub value: OutValue,
}

/// Errors that abort the processing of one file.  A file whose extension is
/// not recognized is never an error: it is skipped at planning, before any
/// transcoding begins.
#[derive(Debug, Clone, PartialEq)]
pub enum TranscodeError {
    /// The workbook could not be parsed, or holds no sheet.
    OpenError(String),
    /// A date-time cell's serial value has no representable calendar date;
    /// the position is the source row and column of the cell.
    DateDecodeError { row: usize, col: usize },
    /// Emitting a value to the output workbook failed.
    WriteError(String),
}

/// The mathematical value of an output value: text by its characters.
pub enum OutModel {
    Number(u64),
    Text(Seq<char>),
    Bool(bool),
    Date(Timestamp),
    Blank,
}

pub open spec fn out_model(v: OutValue) -> OutModel {
    match v {
        OutValue::Number(bits) => OutModel::Number(bits),
        OutValue::Text(s) => OutModel::Text(s@),
        OutValue::Bool(b) => OutModel::Bool(b),
        OutValue::Date(ts) => OutModel::Date(ts),
        OutValue::Blank => OutModel::Blank,
    }
}

/// A well-formed cell: the seconds part of a split serial carries at most
/// one day-fraction carry on either side.
pub open spec fn cell_wf(c: Cell) -> bool {
    match c {
        Cell::DateTime { day_secs, .. } => -86400 <= day_secs <= 86400,
        _ => true,
    }
}

/// What one cell transcodes to: a value to write, no write at all, or a
/// date-decode failure.
pub open spec fn transcoded_cell(c: Cell) -> Result<Option<OutModel>, ()> {
    match c {
        Cell::Number(bits) => Ok(Some(OutModel::Number(bits))),
        Cell::Text(s) => Ok(Some(OutModel::Text(s@))),
        Cell::Bool(b) => Ok(Some(OutModel::Bool(b))),
        Cell::DateTime { days, day_secs } => match decoded_timestamp(
            days as int,
            day_secs as int,
        ) {
            Some(ts) => Ok(Some(OutModel::Date(ts))),
            None => Err(()),
        },
        Cell::Error => Ok(Some(OutModel::Blank)),
        Cell::Empty => Ok(Some(OutModel::Blank)),
        Cell::Other => Ok(None),
    }
}

/// Whether `r` is exactly the outcome of transcoding `c` at output position
/// `(row, col)`.
pub open spec fn cell_result_matches(
    r: Result<Option<CellWrite>, TranscodeError>,
    c: Cell,
    row: int,
    col: int,
) -> bool {
    match r {
        Ok(opt) => transcoded_cell(c) is Ok && match opt {
            Some(w) => {
                &&& transcoded_cell(c) == Ok::<Option<OutModel>, ()>(Some(out_model(w.value)))
                &&& w.row == row
                &&& w.col == col
            },
            None => transcoded_cell(c) == Ok::<Option<OutModel>, ()>(None),
        },
        Err(e) => transcoded_cell(c) is Err && e == (TranscodeError::DateDecodeError {
            row: row as usize,
            col: col as usize,
        }),
    }
}

/// Transcodes one cell for output position `(row_idx, col_idx)`: exactly one
/// write for every recognized cell, none for an unrecognized one, and a
/// date-decode error when a date-time cell's serial value has no
/// representable date.
pub fn process_cell(cell: &Cell, row_idx: usize, col_idx: usize) -> (r: Result<
    Option<CellWrite>,
    TranscodeError,
>)
    requires
        cell_wf(*cell),
    ensures
        cell_result_matches(r, *cell, row_idx as int, col_idx as int),
{
    match cell {
        Cell::Number(bits) => Ok(
            Some(CellWrite { row: row_idx, col: col_idx, value: OutValue::Number(*bits) }),
        ),
        Cell::Text(s) => Ok(
            Some(CellWrite { row: row_idx, col: col_idx, value: OutValue::Text(s.clone()) }),
        ),
        Cell::Bool(b) => Ok(
            Some(CellWrite { row: row_idx, col: col_idx, value: OutValue::Bool(*b) }),
        ),
        Cell::DateTime { days, day_secs } => match excel_serial_to_naive_datetime(
            *days,
            *day_secs,
        ) {
            Some(ts) => Ok(
                Some(CellWrite { row: row_idx, col: col_idx, value: OutValue::Date(ts) }),
            ),
            None => Err(TranscodeError::DateDecodeError { row: row_idx, col: col_idx }),
        },
        Cell::Error => Ok(
            Some(CellWrite { row: row_idx, col: col_idx, value: OutValue::Blank }),
        ),
        Cell::Empty => Ok(
            Some(CellWrite { row: row_idx, col: col_idx, value: OutValue::Blank }),
        ),
        Cell::Other => Ok(None),
    }
}

/// Law: a boolean cell transcodes to a boolean output value, never to a
/// number or a string.
pub proof fn lemma_bool_cell_stays_bool(b: bool)
    ensures
        transcoded_cell(Cell::Bool(b)) == Ok::<Option<OutModel>, ()>(Some(OutModel::Bool(b))),
{
}

/// Law: an error or empty cell produces an explicit blank, and a blank is
/// distinguishable from every numeric output value.
pub proof fn lemma_blank_is_explicit(bits: u64)
    ensures
        transcoded_cell(Cell::Error) == Ok::<Option<OutModel>, ()>(Some(OutModel::Blank)),
        transcoded_cell(Cell::Empty) == Ok::<Option<OutModel>, ()>(Some(OutModel::Blank)),
        transcoded_cell(Cell::Number(bits)) != Ok::<Option<OutModel>, ()>(Some(OutModel::Blank)),
{
}

} // verus!
