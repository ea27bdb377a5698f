//! A session: the loaded datasets, the selection, and the pipelines a user
//! has built, with the operations the surrounding application calls on it.

use vstd::prelude::*;
use crate::Screen;
use crate::aggregate::{filter_equals, filter_equals_spec, store_grids};
use crate::eval::{eval_pipeline_spec, process_csvqb_pipeline};
use crate::grid::{CsvGrid, csv_grid_spec, csv2grid, grid2csv, grid2csv_spec};
use crate::value::{Value, values_wf};

verus! {

/// The state one session works on: the store of loaded datasets, the
/// selection scoping aggregation, the pipelines built so far, and what the
/// surrounding application is showing.
pub struct CharterCsv {
    pub screen: Screen,
    pub csv_files: Vec<(String, CsvGrid)>,
    pub selected_csv_files: Vec<usize>,
    pub csvqb_pipeline: Vec<Vec<String>>,
    pub graph_data: Option<String>,
}

impl CharterCsv {
    /// Parses delimited text into a grid.
    pub fn csv2grid(content: &str) -> (r: CsvGrid)
        ensures
            r.deep_view() == csv_grid_spec(content@),
    {
        csv2grid(content)
    }

    /// Renders a grid as delimited text.
    pub fn grid2csv(grid: &CsvGrid) -> (r: String)
        ensures
            r@ == grid2csv_spec(grid.deep_view()),
    {
        grid2csv(grid)
    }

    /// Keeps, for each selected dataset that has `column`, its header row
    /// and every data row whose cell in `column` equals `value`.
    pub fn filter_equals(&self, column: &str, value: &str) -> (r: Vec<Vec<String>>)
        ensures
            r.deep_view() == filter_equals_spec(
                self.selected_csv_files@,
                store_grids(self.csv_files@),
                column@,
                value@,
            ),
    {
        filter_equals(&self.selected_csv_files, &self.csv_files, column, value)
    }

    /// Evaluates a pipeline against this session's store and selection.
    pub fn process_csvqb_pipeline(&self, qb_pipeline: &[String]) -> (res: Vec<Value>)
        ensures
            res.deep_view() == eval_pipeline_spec(
                qb_pipeline.deep_view(),
                self.selected_csv_files@,
                store_grids(self.csv_files@),
            ),
            values_wf(res.deep_view()),
    {
        process_csvqb_pipeline(qb_pipeline, &self.selected_csv_files, &self.csv_files)
    }
}

} // verus!
