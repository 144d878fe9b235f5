//! From the leaderboard page to a batch of records.
//!
//! The page is parsed and searched by the `scraper` crate; this module
//! trims the cell texts that it hands back and runs them through the
//! normaliser.

use vstd::prelude::*;
use vstd::string::*;

use crate::normalize::{normalize_rows, normalized_batch};
use crate::record::PlayerRecord;
use crate::text::{trim, trimmed};

verus! {

/// CSS selector of the rows of the leaderboard.
pub const ROW_SELECTOR: &'static str = "table tbody tr";

/// CSS selector of the cells of a row.
pub const CELL_SELECTOR: &'static str = "td";

/// The cell texts that `scraper` finds in a page: for each element that
/// matches the selector `rows`, in the order in which `scraper` yields
/// them, the texts of its descendants that match the selector `cells`, each
/// the concatenation of the element's text nodes. `None` where one of the
/// selectors is no valid CSS.
pub uninterp spec fn selected_texts(html: Seq<char>, rows: Seq<char>, cells: Seq<char>) -> Option<
    Seq<Seq<Seq<char>>>,
>;

/// Parses a page with `scraper::Html::parse_document`, both selectors with
/// `scraper::Selector::parse`, and collects the texts of the cells
/// (`ElementRef::text`) of each row that `Html::select` and
/// `ElementRef::select` yield.
///
/// Nothing is proved of the result: it is only given the name
/// `selected_texts`, as a function of the three texts.
#[verifier::external_body]
fn select_texts(html: &str, rows: &str, cells: &str) -> (out: Option<Vec<Vec<String>>>)
    ensures
        out.deep_view() == selected_texts(html@, rows@, cells@),
{
    let rows = match scraper::Selector::parse(rows) {
        Ok(selector) => selector,
        Err(_) => return None,
    };
    let cells = match scraper::Selector::parse(cells) {
        Ok(selector) => selector,
        Err(_) => return None,
    };
    let document = scraper::Html::parse_document(html);
    Some(
        document.select(&rows).map(
            |row| row.select(&cells).map(|cell| cell.text().collect::<String>()).collect(),
        ).collect(),
    )
}

/// A row with every cell trimmed.
pub open spec fn trimmed_row(row: Seq<Seq<char>>) -> Seq<Seq<char>> {
    row.map_values(|cell: Seq<char>| trimmed(cell))
}

/// A table with every cell trimmed.
pub open spec fn trimmed_table(table: Seq<Seq<Seq<char>>>) -> Seq<Seq<Seq<char>>> {
    table.map_values(|row: Seq<Seq<char>>| trimmed_row(row))
}

/// The rows of trimmed cell texts that a page gives; none where a selector
/// is refused.
pub open spec fn leaderboard_rows(html: Seq<char>) -> Seq<Seq<Seq<char>>> {
    match selected_texts(html, ROW_SELECTOR@, CELL_SELECTOR@) {
        Some(table) => trimmed_table(table),
        None => Seq::empty(),
    }
}

/// Trims every cell of a row.
pub fn trim_row(row: &Vec<String>) -> (out: Vec<String>)
    ensures
        out.deep_view() == trimmed_row(row.deep_view()),
{
    let mut out: Vec<String> = Vec::new();
    let mut i: usize = 0;
    while i < row.len()
        invariant
            i <= row.len(),
            out.len() == i,
            forall|k: int| 0 <= k < i ==> #[trigger] out[k]@ == trimmed(row[k]@),
        decreases row.len() - i,
    {
        out.push(trim(row[i].as_str()));
        i += 1;
    }
    out
}

/// Trims every cell of a table.
pub fn trim_table(table: &Vec<Vec<String>>) -> (out: Vec<Vec<String>>)
    ensures
        out.deep_view() == trimmed_table(table.deep_view()),
{
    let mut out: Vec<Vec<String>> = Vec::new();
    let mut i: usize = 0;
    while i < table.len()
        invariant
            i <= table.len(),
            out.len() == i,
            forall|k: int|
                0 <= k < i ==> #[trigger] out[k].deep_view() == trimmed_row(table[k].deep_view()),
        decreases table.len() - i,
    {
        out.push(trim_row(&table[i]));
        i += 1;
    }
    out
}

/// The rows of the leaderboard in a page, as trimmed cell texts.
pub fn table_rows(html: &str) -> (rows: Vec<Vec<String>>)
    ensures
        rows.deep_view() == leaderboard_rows(html@),
{
    match select_texts(html, ROW_SELECTOR, CELL_SELECTOR) {
        Some(table) => trim_table(&table),
        None => Vec::new(),
    }
}

/// The batch of records that a page gives: its rows, normalised. A page
/// without rows gives an empty batch, which is no error.
pub fn parse_leaderboard(html: &str) -> (batch: Vec<PlayerRecord>)
    ensures
        batch.deep_view() == normalized_batch(leaderboard_rows(html@)),
{
    let rows = table_rows(html);
    normalize_rows(&rows)
}

} // verus!
