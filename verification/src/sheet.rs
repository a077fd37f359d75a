//! Sheet transcoding.
//!
//! A source sheet is a sequence of rows of cells.  The first `skip` rows are
//! discarded; the remaining rows are renumbered from zero and every cell is
//! transcoded left to right.  The result is the sequence of write calls for
//! the output sheet.  A date-decode failure anywhere aborts the whole sheet
//! with the source position of the failing cell.

use vstd::prelude::*;
use vstd::seq_lib::*;
use crate::cell::{Cell, CellWrite, OutModel, TranscodeError, cell_result_matches, cell_wf,
    out_model, process_cell, transcoded_cell};

verus! {

/// The mathematical value of one write call.
pub struct WriteModel {
    pub row: int,
    pub col: int,
    pub value: OutModel,
}

pub open spec fn write_model(w: CellWrite) -> WriteModel {
    WriteModel { row: w.row as int, col: w.col as int, value: out_model(w.value) }
}

pub open spec fn writes_model(s: Seq<CellWrite>) -> Seq<WriteModel> {
    s.map_values(|w: CellWrite| write_model(w))
}

/// The sheet as a sequence of rows of cells.
pub open spec fn sheet_view(rows: Seq<Vec<Cell>>) -> Seq<Seq<Cell>> {
    rows.map_values(|row: Vec<Cell>| row@)
}

pub open spec fn row_wf(row: Seq<Cell>) -> bool {
    forall|j: int| 0 <= j < row.len() ==> cell_wf(#[trigger] row[j])
}

pub open spec fn sheet_wf(sheet: Seq<Seq<Cell>>) -> bool {
    forall|i: int| 0 <= i < sheet.len() ==> row_wf(#[trigger] sheet[i])
}

/// The writes produced by the cells of `row` from column `j` on, for output
/// row `out_row`.  A failing cell contributes nothing here; failure is
/// tracked separately.
pub open spec fn row_writes_from(row: Seq<Cell>, out_row: int, j: int) -> Seq<WriteModel>
    decreases row.len() - j,
{
    if j < 0 || j >= row.len() {
        Seq::empty()
    } else {
        let rest = row_writes_from(row, out_row, j + 1);
        match transcoded_cell(row[j]) {
            Ok(opt) => match opt {
                Some(v) => seq![WriteModel { row: out_row, col: j, value: v }] + rest,
                None => rest,
            },
            Err(()) => rest,
        }
    }
}

/// The writes produced by rows `i` and later, numbered from `i - skip`.
pub open spec fn sheet_writes_from(sheet: Seq<Seq<Cell>>, skip: int, i: int) -> Seq<WriteModel>
    decreases sheet.len() - i,
{
    if i < skip || i >= sheet.len() {
        Seq::empty()
    } else {
        row_writes_from(sheet[i], i - skip, 0) + sheet_writes_from(sheet, skip, i + 1)
    }
}

/// All writes of the transcoded sheet.
pub open spec fn sheet_writes(sheet: Seq<Seq<Cell>>, skip: int) -> Seq<WriteModel> {
    sheet_writes_from(sheet, skip, skip)
}

pub open spec fn row_ok(row: Seq<Cell>) -> bool {
    forall|j: int| 0 <= j < row.len() ==> !((#[trigger] transcoded_cell(row[j])) is Err)
}

/// Whether every retained row of the sheet transcodes without failure.
pub open spec fn sheet_ok(sheet: Seq<Seq<Cell>>, skip: int) -> bool {
    forall|i: int| skip <= i < sheet.len() ==> row_ok(#[trigger] sheet[i])
}

/// The first failing column of `row` at or after `j`.
pub open spec fn row_err_from(row: Seq<Cell>, j: int) -> Option<int>
    decreases row.len() - j,
{
    if j < 0 || j >= row.len() {
        None
    } else if transcoded_cell(row[j]) is Err {
        Some(j)
    } else {
        row_err_from(row, j + 1)
    }
}

/// The first failing source position of the sheet at or after row `i`.
pub open spec fn sheet_err_from(sheet: Seq<Seq<Cell>>, skip: int, i: int) -> Option<(int, int)>
    decreases sheet.len() - i,
{
    if i < skip || i >= sheet.len() {
        None
    } else {
        match row_err_from(sheet[i], 0) {
            Some(j) => Some((i, j)),
            None => sheet_err_from(sheet, skip, i + 1),
        }
    }
}

/// The first failing source position of the transcoded sheet, if any.
pub open spec fn sheet_err_pos(sheet: Seq<Seq<Cell>>, skip: int) -> Option<(int, int)> {
    sheet_err_from(sheet, skip, skip)
}

proof fn lemma_row_err_prefix(row: Seq<Cell>, a: int, j: int)
    requires
        0 <= a <= j,
        forall|k: int| a <= k < j ==> !((#[trigger] transcoded_cell(row[k])) is Err),
    ensures
        row_err_from(row, a) == row_err_from(row, j),
    decreases j - a,
{
    if a < j {
        lemma_row_err_prefix(row, a + 1, j);
    }
}

proof fn lemma_sheet_err_prefix(sheet: Seq<Seq<Cell>>, skip: int, a: int, i: int)
    requires
        skip <= a <= i,
        forall|k: int| a <= k < i ==> row_ok(#[trigger] sheet[k]),
    ensures
        sheet_err_from(sheet, skip, a) == sheet_err_from(sheet, skip, i),
    decreases i - a,
{
    if a < i {
        if a < sheet.len() {
            assert(row_ok(sheet[a]));
            lemma_row_err_prefix(sheet[a], 0, sheet[a].len() as int);
            assert(row_err_from(sheet[a], 0) is None);
        }
        lemma_sheet_err_prefix(sheet, skip, a + 1, i);
    }
}

/// Transcodes a whole sheet, discarding the first `del_first_n_rows` rows:
/// on success the write calls of every retained row, in row-major order,
/// renumbered from zero; on failure the date-decode error at the first
/// failing source position.
pub fn process_rows(rows: &Vec<Vec<Cell>>, del_first_n_rows: usize) -> (r: Result<
    Vec<CellWrite>,
    TranscodeError,
>)
    requires
        sheet_wf(sheet_view(rows@)),
    ensures
        r is Ok <==> sheet_ok(sheet_view(rows@), del_first_n_rows as int),
        r matches Ok(ws) ==> writes_model(ws@) == sheet_writes(
            sheet_view(rows@),
            del_first_n_rows as int,
        ),
        r matches Err(e) ==> {
            let pos = sheet_err_pos(sheet_view(rows@), del_first_n_rows as int);
            &&& pos is Some
            &&& e == (TranscodeError::DateDecodeError {
                row: pos.unwrap().0 as usize,
                col: pos.unwrap().1 as usize,
            })
        },
{
    let ghost sheet = sheet_view(rows@);
    let ghost skip = del_first_n_rows as int;
    let mut writes: Vec<CellWrite> = Vec::new();
    let mut i: usize = del_first_n_rows;
    while i < rows.len()
        invariant
            sheet == sheet_view(rows@),
            skip == del_first_n_rows as int,
            sheet_wf(sheet),
            del_first_n_rows <= i,
            i <= rows.len() || i == del_first_n_rows,
            sheet_writes(sheet, skip) == writes_model(writes@) + sheet_writes_from(
                sheet,
                skip,
                i as int,
            ),
            forall|k: int| skip <= k < i ==> row_ok(#[trigger] sheet[k]),
        decreases rows.len() - i,
    {
        let row = &rows[i];
        assert(sheet[i as int] == row@);
        let mut j: usize = 0;
        while j < row.len()
            invariant
                sheet == sheet_view(rows@),
                skip == del_first_n_rows as int,
                sheet_wf(sheet),
                del_first_n_rows <= i < rows.len(),
                j <= row.len(),
                row@ == sheet[i as int],
                row_wf(row@),
                sheet_writes(sheet, skip) == writes_model(writes@) + row_writes_from(
                    row@,
                    i - del_first_n_rows,
                    j as int,
                ) + sheet_writes_from(sheet, skip, i + 1),
                forall|k: int| skip <= k < i ==> row_ok(#[trigger] sheet[k]),
                forall|k: int|
                    0 <= k < j ==> !((#[trigger] transcoded_cell(row@[k])) is Err),
            decreases row.len() - j,
        {
            assert(cell_wf(row@[j as int]));
            let outcome = process_cell(&row[j], i - del_first_n_rows, j);
            match outcome {
                Ok(opt) => {
                    proof {
                        assert(cell_result_matches(
                            outcome,
                            row@[j as int],
                            i - del_first_n_rows,
                            j as int,
                        ));
                    }
                    match opt {
                        Some(w) => {
                            let ghost before = writes@;
                            writes.push(w);
                            proof {
                                assert(writes@ == before.push(w));
                                assert(writes_model(writes@) =~= writes_model(before) + seq![
                                    write_model(w),
                                ]);
                                assert(row_writes_from(row@, i - skip, j as int) == seq![
                                    WriteModel {
                                        row: i - skip,
                                        col: j as int,
                                        value: out_model(w.value),
                                    },
                                ] + row_writes_from(row@, i - skip, j + 1));
                                assert(write_model(w) == (WriteModel {
                                    row: i - skip,
                                    col: j as int,
                                    value: out_model(w.value),
                                }));
                                assert(writes_model(writes@) + row_writes_from(
                                    row@,
                                    i - skip,
                                    j + 1,
                                ) =~= writes_model(before) + row_writes_from(
                                    row@,
                                    i - skip,
                                    j as int,
                                ));
                                assert(sheet_writes(sheet, skip) == writes_model(writes@)
                                    + row_writes_from(row@, i - skip, j + 1)
                                    + sheet_writes_from(sheet, skip, i + 1));
                            }
                        },
                        None => {
                            proof {
                                assert(row_writes_from(row@, i - skip, j as int)
                                    == row_writes_from(row@, i - skip, j + 1));
                            }
                        },
                    }
                },
                Err(_) => {
                    proof {
                        assert(transcoded_cell(row@[j as int]) is Err);
                        assert(row_err_from(row@, j as int) == Some(j as int));
                        lemma_row_err_prefix(row@, 0, j as int);
                        assert(row_err_from(row@, 0) == Some(j as int));
                        lemma_sheet_err_prefix(sheet, skip, skip, i as int);
                        assert(sheet_err_pos(sheet, skip) == Some((i as int, j as int)));
                        if sheet_ok(sheet, skip) {
                            assert(row_ok(sheet[i as int]));
                            assert(false);
                        }
                    }
                    return Err(TranscodeError::DateDecodeError { row: i, col: j });
                },
            }
            j = j + 1;
        }
        proof {
            assert(row_writes_from(row@, i - skip, j as int) =~= Seq::<WriteModel>::empty());
            assert(writes_model(writes@) + Seq::<WriteModel>::empty() + sheet_writes_from(
                sheet,
                skip,
                i + 1,
            ) =~= writes_model(writes@) + sheet_writes_from(sheet, skip, i + 1));
            assert(row_ok(sheet[i as int]));
        }
        i = i + 1;
    }
    proof {
        assert(sheet_writes_from(sheet, skip, i as int) =~= Seq::<WriteModel>::empty());
        assert(writes_model(writes@) + Seq::<WriteModel>::empty() =~= writes_model(writes@));
        assert(sheet_ok(sheet, skip));
    }
    Ok(writes)
}

/// Law: when the skip count is at least the sheet's row count, the
/// transcoded output is empty.
pub proof fn lemma_skip_all_rows(sheet: Seq<Seq<Cell>>, skip: int)
    requires
        skip >= sheet.len(),
    ensures
        sheet_writes(sheet, skip) == Seq::<WriteModel>::empty(),
{
}

/// The writes that belong to output row `k`.
pub open spec fn on_row(k: int) -> spec_fn(WriteModel) -> bool {
    |w: WriteModel| w.row == k
}

proof fn lemma_filter_single(w: WriteModel, rest: Seq<WriteModel>, k: int)
    ensures
        (seq![w] + rest).filter(on_row(k)) =~= if on_row(k)(w) {
            seq![w] + rest.filter(on_row(k))
        } else {
            rest.filter(on_row(k))
        },
{
    reveal_with_fuel(Seq::<WriteModel>::filter, 3);
    Seq::filter_distributes_over_add(seq![w], rest, on_row(k));
    assert(seq![w].drop_last() =~= Seq::<WriteModel>::empty());
    assert(Seq::<WriteModel>::empty().filter(on_row(k)) =~= Seq::<WriteModel>::empty());
    assert(seq![w].last() == w);
    if on_row(k)(w) {
        assert(seq![w].filter(on_row(k)) =~= seq![w]);
    } else {
        assert(seq![w].filter(on_row(k)) =~= Seq::<WriteModel>::empty());
    }
}

proof fn lemma_row_writes_filter(row: Seq<Cell>, out_row: int, j: int, k: int)
    ensures
        out_row == k ==> row_writes_from(row, out_row, j).filter(on_row(k)) =~= row_writes_from(
            row,
            out_row,
            j,
        ),
        out_row != k ==> row_writes_from(row, out_row, j).filter(on_row(k))
            =~= Seq::<WriteModel>::empty(),
    decreases row.len() - j,
{
    if j < 0 || j >= row.len() {
        assert(Seq::<WriteModel>::empty().filter(on_row(k)) =~= Seq::<WriteModel>::empty());
    } else {
        lemma_row_writes_filter(row, out_row, j + 1, k);
        let rest = row_writes_from(row, out_row, j + 1);
        match transcoded_cell(row[j]) {
            Ok(opt) => match opt {
                Some(v) => {
                    lemma_filter_single(
                        WriteModel { row: out_row, col: j, value: v },
                        rest,
                        k,
                    );
                },
                None => {},
            },
            Err(()) => {},
        }
    }
}

proof fn lemma_sheet_writes_filter(sheet: Seq<Seq<Cell>>, skip: int, i: int, k: int)
    requires
        skip <= i,
        0 <= k,
    ensures
        i <= skip + k < sheet.len() ==> sheet_writes_from(sheet, skip, i).filter(on_row(k))
            =~= row_writes_from(sheet[skip + k], k, 0),
        !(i <= skip + k < sheet.len()) ==> sheet_writes_from(sheet, skip, i).filter(on_row(k))
            =~= Seq::<WriteModel>::empty(),
    decreases sheet.len() - i,
{
    if i < skip || i >= sheet.len() {
        assert(Seq::<WriteModel>::empty().filter(on_row(k)) =~= Seq::<WriteModel>::empty());
    } else {
        lemma_sheet_writes_filter(sheet, skip, i + 1, k);
        let head = row_writes_from(sheet[i], i - skip, 0);
        let rest = sheet_writes_from(sheet, skip, i + 1);
        Seq::filter_distributes_over_add(head, rest, on_row(k));
        lemma_row_writes_filter(sheet[i], i - skip, 0, k);
        if i == skip + k {
            assert(rest.filter(on_row(k)) =~= Seq::<WriteModel>::empty());
            assert(head.filter(on_row(k)) =~= head);
            assert(head + Seq::<WriteModel>::empty() =~= head);
        } else {
            assert(head.filter(on_row(k)) =~= Seq::<WriteModel>::empty());
        }
    }
}

/// Law: with a skip count `skip` below the row count, the transcoded output
/// holds exactly the source rows `skip..`, renumbered from zero: the writes
/// of output row `k` are the writes of source row `skip + k`, in original
/// order, and no write lies on a row at or past the retained count.
pub proof fn lemma_retained_rows(sheet: Seq<Seq<Cell>>, skip: int, k: int)
    requires
        0 <= skip,
        0 <= k,
    ensures
        skip + k < sheet.len() ==> sheet_writes(sheet, skip).filter(on_row(k))
            =~= row_writes_from(sheet[skip + k], k, 0),
        skip + k >= sheet.len() ==> sheet_writes(sheet, skip).filter(on_row(k))
            =~= Seq::<WriteModel>::empty(),
{
    lemma_sheet_writes_filter(sheet, skip, skip, k);
}

} // verus!
