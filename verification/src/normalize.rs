//! The normaliser: from the cells of one table row to at most one record.
//!
//! The columns are those of the leaderboard: team in the second cell, name
//! in the third, DPI in the sixth and sensitivity in the seventh.

use vstd::prelude::*;

use crate::fixed::edpi_of;
use crate::record::{PlayerRecord, PlayerView};
use crate::text::{i32_of, millionths_of, parse_decimal, parse_i32};

verus! {

/// Cells that a row must have.
pub const ROW_CELLS: usize = 8;

/// Index of the team cell.
pub const TEAM_CELL: usize = 1;

/// Index of the name cell.
pub const NAME_CELL: usize = 2;

/// Index of the DPI cell.
pub const DPI_CELL: usize = 5;

/// Index of the sensitivity cell.
pub const SENS_CELL: usize = 6;

/// The DPI that a cell gives: zero where it holds no 32-bit integer.
pub open spec fn dpi_of_cell(cell: Seq<char>) -> int {
    match i32_of(cell) {
        Some(v) => v as int,
        None => 0,
    }
}

/// The sensitivity, in millionths, that a cell gives: zero where it holds
/// no decimal number.
pub open spec fn sens_of_cell(cell: Seq<char>) -> int {
    match millionths_of(cell) {
        Some(v) => v as int,
        None => 0,
    }
}

/// The record that a row gives, if it gives one: a row of at least eight
/// cells whose name is not empty and whose sensitivity and eDPI are
/// positive.
pub open spec fn normalized(cells: Seq<Seq<char>>) -> Option<PlayerView> {
    if cells.len() < ROW_CELLS {
        None
    } else {
        let name = cells[NAME_CELL as int];
        let team = cells[TEAM_CELL as int];
        let dpi = dpi_of_cell(cells[DPI_CELL as int]);
        let sens = sens_of_cell(cells[SENS_CELL as int]);
        if name.len() > 0 && sens > 0 && edpi_of(dpi, sens) > 0 {
            Some(PlayerView { name, team, sens, dpi, edpi: edpi_of(dpi, sens) })
        } else {
            None
        }
    }
}

/// The records that a sequence of rows gives, in the order of the rows.
pub open spec fn normalized_batch(rows: Seq<Seq<Seq<char>>>) -> Seq<PlayerView>
    decreases rows.len(),
{
    if rows.len() == 0 {
        Seq::empty()
    } else {
        let before = normalized_batch(rows.drop_last());
        match normalized(rows.last()) {
            Some(p) => before.push(p),
            None => before,
        }
    }
}

/// Every record that the normaliser emits may be persisted, and its eDPI is
/// exactly its DPI times its sensitivity.
pub proof fn lemma_normalized_is_valid(cells: Seq<Seq<char>>)
    ensures
        normalized(cells) matches Some(p) ==> p.valid() && p.edpi == p.dpi * p.sens,
{
}

/// A row without a name, or whose sensitivity or eDPI is not positive,
/// gives no record.
pub proof fn lemma_skipped_rows(cells: Seq<Seq<char>>)
    requires
        cells.len() >= ROW_CELLS,
        cells[NAME_CELL as int].len() == 0 || sens_of_cell(cells[SENS_CELL as int]) <= 0
            || dpi_of_cell(cells[DPI_CELL as int]) * sens_of_cell(cells[SENS_CELL as int]) <= 0,
    ensures
        normalized(cells) is None,
{
}

/// Reads the DPI cell, zero standing for what cannot be read.
pub fn read_dpi(cell: &str) -> (dpi: i32)
    ensures
        dpi == dpi_of_cell(cell@),
{
    match parse_i32(cell) {
        Some(v) => v,
        None => 0,
    }
}

/// Reads the sensitivity cell, zero standing for what cannot be read.
pub fn read_sens(cell: &str) -> (sens: i64)
    ensures
        sens == sens_of_cell(cell@),
{
    match parse_decimal(cell) {
        Some(v) => v,
        None => 0,
    }
}

/// Normalises one row of trimmed cell texts.
///
/// The row gives a record when it has at least eight cells, a name, a
/// positive sensitivity and a positive eDPI; any other row is skipped,
/// which is no error.
///
/// The sensitivity is kept in millionths, rounded down: the smallest one
/// that is kept is 0.000001, and a cell that writes less counts as zero, so
/// that its row is skipped. The largest is 9223372036854.775807; a cell
/// that writes more cannot be read and counts as zero too, as does one
/// that writes an infinite value or none at all.
pub fn normalize_row(cells: &Vec<String>) -> (r: Option<PlayerRecord>)
    ensures
        r.deep_view() == normalized(cells.deep_view()),
{
    if cells.len() < ROW_CELLS {
        return None;
    }
    let dpi = read_dpi(cells[DPI_CELL].as_str());
    let sens = read_sens(cells[SENS_CELL].as_str());
    let record = PlayerRecord::new(cells[NAME_CELL].clone(), cells[TEAM_CELL].clone(), sens, dpi);
    if !cells[NAME_CELL].as_str().is_empty() && sens > 0 && record.edpi > 0 {
        Some(record)
    } else {
        None
    }
}

/// Normalises the rows of a table, keeping the records in row order.
pub fn normalize_rows(rows: &Vec<Vec<String>>) -> (batch: Vec<PlayerRecord>)
    ensures
        batch.deep_view() == normalized_batch(rows.deep_view()),
{
    let mut batch: Vec<PlayerRecord> = Vec::new();
    let mut i: usize = 0;
    while i < rows.len()
        invariant
            i <= rows.len(),
            batch.deep_view() == normalized_batch(rows.deep_view().take(i as int)),
        decreases rows.len() - i,
    {
        let ghost before = batch.deep_view();
        let row = normalize_row(&rows[i]);
        proof {
            let t = rows.deep_view().take(i + 1);
            assert(t.drop_last() =~= rows.deep_view().take(i as int));
            assert(t.last() == rows[i as int].deep_view());
        }
        if let Some(record) = row {
            batch.push(record);
            assert(batch.deep_view() =~= before.push(record@));
        }
        i += 1;
    }
    assert(rows.deep_view().take(rows.len() as int) =~= rows.deep_view());
    batch
}

} // verus!
