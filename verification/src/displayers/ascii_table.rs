//! The table of a ranking.

use crate::processor::ngram::{views, NgramForByCountCommand, RankedNgram};
use crate::text::{decimal_of, decimal_text};
use ascii_table::AsciiTable;
use vstd::prelude::*;

verus! {

/// The cells of a table as text.
pub open spec fn cell_texts(rows: Seq<Vec<String>>) -> Seq<Seq<Seq<char>>> {
    Seq::new(rows.len(), |i: int| views(rows[i]@))
}

/// The table that `ascii_table::AsciiTable::format` draws of two columns
/// with these headers and of these rows.
pub uninterp spec fn table_text(
    first_header: Seq<char>,
    second_header: Seq<char>,
    rows: Seq<Seq<Seq<char>>>,
) -> Seq<char>;

/// Calls `ascii_table::AsciiTable::format` on a table of default settings
/// whose first two columns were given headers with `Column::set_header`.
/// The table has a fixed greatest width and no setting is read from the
/// terminal, so what is drawn depends on the headers and the rows alone; the
/// contract gives it a name and claims nothing else of it.
#[verifier::external_body]
fn draw_table(first_header: &str, second_header: &str, rows: Vec<Vec<String>>) -> (text: String)
    ensures
        text@ == table_text(first_header@, second_header@, cell_texts(rows@)),
{
    let mut table = AsciiTable::default();
    table.column(0).set_header(first_header);
    table.column(1).set_header(second_header);
    table.format(rows)
}

/// The rows of the table of a ranking: each line's text, and its count in
/// decimal.
pub open spec fn ranking_rows(lines: Seq<RankedNgram>) -> Seq<Seq<Seq<char>>> {
    Seq::new(lines.len(), |i: int| seq![lines[i].content, decimal_of(lines[i].count as nat)])
}

/// The table of a ranking over its rows.
pub open spec fn ranking_table(rows: Seq<Seq<Seq<char>>>) -> Seq<char> {
    table_text("N-gram"@, "Count"@, rows)
}

/// Draws the table of a ranking: one row for each line, under the headers
/// `N-gram` and `Count`.
pub fn display_ngram_list(ngrams: &[NgramForByCountCommand]) -> (table: String)
    ensures
        table@ == ranking_table(ranking_rows(views(ngrams@))),
{
    let rows: Vec<Vec<String>> = ranking_cells(ngrams);
    draw_table("N-gram", "Count", rows)
}

/// The cells of the table of a ranking.
pub fn ranking_cells(ngrams: &[NgramForByCountCommand]) -> (rows: Vec<Vec<String>>)
    ensures
        cell_texts(rows@) == ranking_rows(views(ngrams@)),
{
    let mut rows: Vec<Vec<String>> = Vec::new();
    let mut i: usize = 0;
    while i < ngrams.len()
        invariant
            i <= ngrams@.len(),
            rows@.len() == i,
            forall|j: int|
                0 <= j < i ==> views((#[trigger] rows@[j])@) == ranking_rows(views(ngrams@))[j],
        decreases ngrams@.len() - i,
    {
        let mut row: Vec<String> = Vec::new();
        row.push(ngrams[i].content.clone());
        row.push(decimal_text(ngrams[i].count));
        assert(views(row@) =~= ranking_rows(views(ngrams@))[i as int]);
        rows.push(row);
        i = i + 1;
    }
    assert(cell_texts(rows@) =~= ranking_rows(views(ngrams@)));
    rows
}

} // verus!
