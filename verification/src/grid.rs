//! The tabular grid: rows of text cells with row 0 as header, the delimited
//! text codec for it, and header/group-key lookups used by the aggregations.

use vstd::prelude::*;
use crate::strings::{split_on, split_str, trim_spec, trim_str, join_with, join_strs, str_eq};

verus! {

/// A grid of text cells; row 0 is the header row.
pub type CsvGrid = Vec<Vec<String>>;

/// The line pieces of a delimited text: split on line feeds, with the piece
/// after a trailing line feed ignored, and nothing for an empty text.
pub open spec fn csv_lines(content: Seq<char>) -> Seq<Seq<char>> {
    if content.len() == 0 {
        Seq::empty()
    } else if content.last() == '\n' {
        split_on(content, '\n').drop_last()
    } else {
        split_on(content, '\n')
    }
}

/// One grid row from one line: cells split on commas, each trimmed.
pub open spec fn csv_row(line: Seq<char>) -> Seq<Seq<char>> {
    split_on(line, ',').map_values(|c: Seq<char>| trim_spec(c))
}

/// The grid a delimited text denotes.
pub open spec fn csv_grid_spec(content: Seq<char>) -> Seq<Seq<Seq<char>>> {
    csv_lines(content).map_values(|l: Seq<char>| csv_row(l))
}

/// The delimited text a grid denotes: cells joined with commas, rows joined
/// with line feeds.
pub open spec fn grid2csv_spec(g: Seq<Seq<Seq<char>>>) -> Seq<char> {
    join_with(g.map_values(|row: Seq<Seq<char>>| join_with(row, ',')), '\n')
}

/// Splits one line into trimmed cells.
fn split_csv_line(line: &str) -> (r: Vec<String>)
    ensures
        r.deep_view() == csv_row(line@),
{
    let cells = split_str(line, ',');
    let n = cells.len();
    let mut r: Vec<String> = Vec::new();
    let mut k: usize = 0;
    while k < n
        invariant
            k <= n,
            n == cells@.len(),
            cells.deep_view() == split_on(line@, ','),
            r@.len() == k,
            forall|i: int| 0 <= i < k ==> r.deep_view()[i] == trim_spec(cells.deep_view()[i]),
        decreases n - k,
    {
        let cell = trim_str(cells[k].as_str());
        let ghost oldr = r;
        let ghost c = cell;
        r.push(cell);
        proof {
            crate::strings::lemma_deep_view_push(oldr, r, c);
        }
        k = k + 1;
    }
    proof {
        assert(r.deep_view() =~= csv_row(line@));
    }
    r
}

/// Parses delimited text into a grid: one row per line, cells split on
/// commas and trimmed of surrounding whitespace.
pub fn csv2grid(content: &str) -> (r: CsvGrid)
    ensures
        r.deep_view() == csv_grid_spec(content@),
{
    let len = content.unicode_len();
    let mut grid: Vec<Vec<String>> = Vec::new();
    if len == 0 {
        proof {
            assert(grid.deep_view() =~= csv_grid_spec(content@));
        }
        return grid;
    }
    let lines = split_str(content, '\n');
    let mut nlines = lines.len();
    if content.get_char(len - 1) == '\n' {
        proof {
            crate::strings::lemma_split_on_len(content@, '\n');
        }
        nlines = nlines - 1;
    }
    let ghost rows = csv_lines(content@);
    proof {
        assert(rows.len() == nlines);
        assert(forall|i: int| 0 <= i < nlines ==> rows[i] == lines.deep_view()[i]);
    }
    let mut i: usize = 0;
    while i < nlines
        invariant
            i <= nlines,
            nlines <= lines@.len(),
            rows == csv_lines(content@),
            rows.len() == nlines,
            forall|k: int| 0 <= k < nlines ==> rows[k] == lines.deep_view()[k],
            grid@.len() == i,
            forall|k: int| 0 <= k < i ==> grid.deep_view()[k] == csv_row(rows[k]),
        decreases nlines - i,
    {
        let row = split_csv_line(lines[i].as_str());
        let ghost oldg = grid;
        let ghost rv = row;
        grid.push(row);
        proof {
            crate::strings::lemma_deep_view_push(oldg, grid, rv);
        }
        i = i + 1;
    }
    proof {
        assert(grid.deep_view() =~= csv_grid_spec(content@));
    }
    grid
}

/// Renders a grid as delimited text: cells joined with commas, rows joined
/// with line feeds, no trailing line feed.
pub fn grid2csv(grid: &CsvGrid) -> (r: String)
    ensures
        r@ == grid2csv_spec(grid.deep_view()),
{
    proof {
        reveal_strlit(",");
        reveal_strlit("\n");
    }
    let n = grid.len();
    let mut line_texts: Vec<String> = Vec::new();
    let mut i: usize = 0;
    while i < n
        invariant
            i <= n,
            n == grid@.len(),
            line_texts@.len() == i,
            ","@ =~= seq![','],
            forall|k: int| 0 <= k < i ==> line_texts.deep_view()[k] == join_with(
                grid.deep_view()[k],
                ',',
            ),
        decreases n - i,
    {
        let line = join_strs(&grid[i], ",");
        let ghost oldt = line_texts;
        let ghost lv = line;
        line_texts.push(line);
        proof {
            crate::strings::lemma_deep_view_push(oldt, line_texts, lv);
        }
        i = i + 1;
    }
    let r = join_strs(&line_texts, "\n");
    proof {
        assert(line_texts.deep_view() =~= grid.deep_view().map_values(
            |row: Seq<Seq<char>>| join_with(row, ','),
        ));
    }
    r
}

/// The index of the first header cell equal to `col`.
pub open spec fn header_index_spec(headers: Seq<Seq<char>>, col: Seq<char>) -> Option<int>
    decreases headers.len(),
{
    if headers.len() == 0 {
        None
    } else if headers.first() == col {
        Some(0int)
    } else {
        match header_index_spec(headers.drop_first(), col) {
            Some(i) => Some(i + 1),
            None => None,
        }
    }
}

/// A scan that found no match up to `i`, and a match at `i` (or none at
/// all), pins down `header_index_spec`.
proof fn lemma_header_index(headers: Seq<Seq<char>>, col: Seq<char>, i: int)
    requires
        0 <= i <= headers.len(),
        forall|k: int| 0 <= k < i ==> headers[k] != col,
        i == headers.len() || headers[i] == col,
    ensures
        header_index_spec(headers, col) == if i == headers.len() {
            Option::<int>::None
        } else {
            Option::<int>::Some(i)
        },
    decreases headers.len(),
{
    if headers.len() > 0 && i > 0 {
        let t = headers.drop_first();
        assert forall|k: int| 0 <= k < i - 1 implies t[k] != col by {
            assert(t[k] == headers[k + 1]);
        }
        assert(i - 1 == t.len() || t[i - 1] == col);
        lemma_header_index(t, col, i - 1);
    }
}

/// Finds the first header cell equal to `col`.
pub fn header_index(headers: &Vec<String>, col: &str) -> (r: Option<usize>)
    ensures
        match r {
            Some(i) => header_index_spec(headers.deep_view(), col@) == Some(i as int),
            None => header_index_spec(headers.deep_view(), col@) is None,
        },
{
    let n = headers.len();
    let mut i: usize = 0;
    while i < n
        invariant
            i <= n,
            n == headers@.len(),
            forall|k: int| 0 <= k < i ==> headers.deep_view()[k] != col@,
        decreases n - i,
    {
        if str_eq(headers[i].as_str(), col) {
            proof {
                lemma_header_index(headers.deep_view(), col@, i as int);
            }
            return Some(i);
        }
        i = i + 1;
    }
    proof {
        lemma_header_index(headers.deep_view(), col@, n as int);
    }
    None
}

/// The contribution of one group-by column to a row's group key: the row's
/// cell in that column followed by the separator, or nothing when the column
/// is absent from the header or the row is too short.
pub open spec fn key_part(headers: Seq<Seq<char>>, row: Seq<Seq<char>>, g: Seq<char>) -> Seq<
    char,
> {
    match header_index_spec(headers, g) {
        Some(i) => if i < row.len() {
            row[i] + seq!['|']
        } else {
            Seq::empty()
        },
        None => Seq::empty(),
    }
}

/// The group key of a row: the concatenated contributions of the group-by
/// columns, in capture order.
pub open spec fn group_key_spec(
    headers: Seq<Seq<char>>,
    row: Seq<Seq<char>>,
    groups: Seq<Seq<char>>,
) -> Seq<char>
    decreases groups.len(),
{
    if groups.len() == 0 {
        Seq::empty()
    } else {
        group_key_spec(headers, row, groups.drop_last()) + key_part(headers, row, groups.last())
    }
}

/// Builds a row's group key from the captured group-by columns.
pub fn build_group_key(headers: &Vec<String>, row: &Vec<String>, groups: &[String]) -> (r:
    String)
    ensures
        r@ == group_key_spec(headers.deep_view(), row.deep_view(), groups.deep_view()),
{
    proof {
        reveal_strlit("|");
    }
    let mut key = String::new();
    let n = groups.len();
    let mut j: usize = 0;
    proof {
        assert(key@ =~= group_key_spec(
            headers.deep_view(),
            row.deep_view(),
            groups.deep_view().take(0),
        ));
    }
    while j < n
        invariant
            j <= n,
            n == groups@.len(),
            "|"@ =~= seq!['|'],
            key@ == group_key_spec(
                headers.deep_view(),
                row.deep_view(),
                groups.deep_view().take(j as int),
            ),
        decreases n - j,
    {
        let ghost t0 = groups.deep_view().take(j as int);
        let ghost t1 = groups.deep_view().take(j + 1);
        proof {
            assert(t1.drop_last() =~= t0);
            assert(t1.last() == groups@[j as int]@);
        }
        match header_index(headers, groups[j].as_str()) {
            Some(idx) => {
                if idx < row.len() {
                    key.append(row[idx].as_str());
                    key.append("|");
                    proof {
                        assert(key@ =~= group_key_spec(
                            headers.deep_view(),
                            row.deep_view(),
                            t1,
                        ));
                    }
                } else {
                    proof {
                        assert(key_part(headers.deep_view(), row.deep_view(), t1.last())
                            =~= Seq::<char>::empty());
                        assert(key@ =~= group_key_spec(
                            headers.deep_view(),
                            row.deep_view(),
                            t1,
                        ));
                    }
                }
            },
            None => {
                proof {
                    assert(key_part(headers.deep_view(), row.deep_view(), t1.last())
                        =~= Seq::<char>::empty());
                    assert(key@ =~= group_key_spec(headers.deep_view(), row.deep_view(), t1));
                }
            },
        }
        j = j + 1;
    }
    proof {
        assert(groups.deep_view().take(n as int) =~= groups.deep_view());
    }
    key
}

} // verus!
