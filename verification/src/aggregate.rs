//! The aggregation primitives: per-key column sums, averages, grouped
//! counts, and row filters, all over a selection of datasets in a store.
//!
//! Keys are association lists in first-insertion order; a cell that does not
//! parse as a number, a column absent from a header, and an out-of-range
//! selection index all contribute nothing.

use vstd::prelude::*;
use crate::grid::{CsvGrid, header_index, header_index_spec, build_group_key, group_key_spec};
use crate::num::{Num, parse_num_spec, parse_number, sum_or_keep, count_inc};
use crate::strings::{str_eq, lemma_deep_view_push, lemma_deep_view_update};

verus! {

/// The cells of one dataset, abstractly: rows of cells of characters.
pub type GridV = Seq<Seq<Seq<char>>>;

/// The grids of a store of named datasets, in order.
pub open spec fn store_grids(files: Seq<(String, Vec<Vec<String>>)>) -> Seq<GridV> {
    Seq::new(files.len(), |i: int| files[i].1.deep_view())
}

/// The group-by columns as character sequences.
pub open spec fn opt_groups(g: Option<&[String]>) -> Option<Seq<Seq<char>>> {
    match g {
        Some(gs) => Some(gs.deep_view()),
        None => None,
    }
}

/// The aggregation key of a row: its group key, or the literal key `total`
/// when no grouping is active.
pub open spec fn row_key(
    headers: Seq<Seq<char>>,
    row: Seq<Seq<char>>,
    gb: Option<Seq<Seq<char>>>,
) -> Seq<char> {
    match gb {
        Some(g) => group_key_spec(headers, row, g),
        None => "total"@,
    }
}

/// The index of the first entry of the association list `m` with key `key`.
pub open spec fn find_key<V>(m: Seq<(Seq<char>, V)>, key: Seq<char>) -> Option<int>
    decreases m.len(),
{
    if m.len() == 0 {
        None
    } else if m.first().0 == key {
        Some(0int)
    } else {
        match find_key(m.drop_first(), key) {
            Some(i) => Some(i + 1),
            None => None,
        }
    }
}

/// A scan that found no matching key up to `i`, and a match at `i` (or none
/// at all), pins down `find_key`.
pub proof fn lemma_find_key<V>(m: Seq<(Seq<char>, V)>, key: Seq<char>, i: int)
    requires
        0 <= i <= m.len(),
        forall|k: int| 0 <= k < i ==> m[k].0 != key,
        i == m.len() || m[i].0 == key,
    ensures
        find_key(m, key) == if i == m.len() {
            Option::<int>::None
        } else {
            Option::<int>::Some(i)
        },
    decreases m.len(),
{
    if m.len() > 0 && i > 0 {
        let t = m.drop_first();
        assert forall|k: int| 0 <= k < i - 1 implies t[k].0 != key by {
            assert(t[k] == m[k + 1]);
        }
        assert(i - 1 == t.len() || t[i - 1].0 == key);
        lemma_find_key(t, key, i - 1);
    }
}

/// Adds `v` into the entry of `m` with key `key`, appending a fresh entry
/// when the key is new. An addition that would leave the machine range
/// keeps the entry unchanged.
pub open spec fn sum_upsert(m: Seq<(Seq<char>, Num)>, key: Seq<char>, v: Num) -> Seq<
    (Seq<char>, Num),
> {
    match find_key(m, key) {
        Some(i) => m.update(i, (m[i].0, sum_or_keep(m[i].1, v))),
        None => m.push((key, v)),
    }
}

/// One row's contribution to a per-key column sum.
pub open spec fn sum_row_step(
    headers: Seq<Seq<char>>,
    row: Seq<Seq<char>>,
    ci: int,
    gb: Option<Seq<Seq<char>>>,
    m: Seq<(Seq<char>, Num)>,
) -> Seq<(Seq<char>, Num)> {
    if row.len() > ci {
        match parse_num_spec(row[ci]) {
            Some(v) => sum_upsert(m, row_key(headers, row, gb), v),
            None => m,
        }
    } else {
        m
    }
}

/// The data rows of `g` from row `r` on, folded into the per-key sums `m`.
pub open spec fn sum_rows(
    g: GridV,
    ci: int,
    gb: Option<Seq<Seq<char>>>,
    m: Seq<(Seq<char>, Num)>,
    r: int,
) -> Seq<(Seq<char>, Num)>
    decreases g.len() - r,
{
    if 1 <= r < g.len() {
        sum_rows(g, ci, gb, sum_row_step(g[0], g[r], ci, gb, m), r + 1)
    } else {
        m
    }
}

/// One selected dataset's contribution to the per-key column sums.
pub open spec fn sum_file_step(
    store: Seq<GridV>,
    idx: int,
    col: Seq<char>,
    gb: Option<Seq<Seq<char>>>,
    m: Seq<(Seq<char>, Num)>,
) -> Seq<(Seq<char>, Num)> {
    if 0 <= idx < store.len() {
        let g = store[idx];
        if g.len() > 0 {
            match header_index_spec(g[0], col) {
                Some(ci) => sum_rows(g, ci, gb, m, 1),
                None => m,
            }
        } else {
            m
        }
    } else {
        m
    }
}

/// The selected datasets from position `s` on, folded into `m`.
pub open spec fn sum_files(
    sel: Seq<usize>,
    store: Seq<GridV>,
    col: Seq<char>,
    gb: Option<Seq<Seq<char>>>,
    m: Seq<(Seq<char>, Num)>,
    s: int,
) -> Seq<(Seq<char>, Num)>
    decreases sel.len() - s,
{
    if 0 <= s < sel.len() {
        sum_files(sel, store, col, gb, sum_file_step(store, sel[s] as int, col, gb, m), s + 1)
    } else {
        m
    }
}

/// The per-key sums of `col` over the selected datasets: for every data row
/// whose cell in `col` parses as a number, that value added to the row's
/// key, keys in first-appearance order.
pub open spec fn col_sum_spec(
    sel: Seq<usize>,
    store: Seq<GridV>,
    col: Seq<char>,
    gb: Option<Seq<Seq<char>>>,
) -> Seq<(Seq<char>, Num)> {
    sum_files(sel, store, col, gb, Seq::empty(), 0)
}

/// Adds one parsed value into the per-key running sums and row counts.
pub open spec fn avg_upsert(
    m: Seq<(Seq<char>, (Num, u64))>,
    key: Seq<char>,
    v: Num,
) -> Seq<(Seq<char>, (Num, u64))> {
    match find_key(m, key) {
        Some(i) => m.update(i, (m[i].0, (sum_or_keep(m[i].1.0, v), count_inc(m[i].1.1)))),
        None => m.push((key, (v, 1u64))),
    }
}

/// One row's contribution to the per-key sums and counts.
pub open spec fn avg_row_step(
    headers: Seq<Seq<char>>,
    row: Seq<Seq<char>>,
    ci: int,
    gb: Option<Seq<Seq<char>>>,
    m: Seq<(Seq<char>, (Num, u64))>,
) -> Seq<(Seq<char>, (Num, u64))> {
    if row.len() > ci {
        match parse_num_spec(row[ci]) {
            Some(v) => avg_upsert(m, row_key(headers, row, gb), v),
            None => m,
        }
    } else {
        m
    }
}

/// The data rows of `g` from row `r` on, folded into sums and counts.
pub open spec fn avg_rows(
    g: GridV,
    ci: int,
    gb: Option<Seq<Seq<char>>>,
    m: Seq<(Seq<char>, (Num, u64))>,
    r: int,
) -> Seq<(Seq<char>, (Num, u64))>
    decreases g.len() - r,
{
    if 1 <= r < g.len() {
        avg_rows(g, ci, gb, avg_row_step(g[0], g[r], ci, gb, m), r + 1)
    } else {
        m
    }
}

/// One selected dataset's contribution to the sums and counts.
pub open spec fn avg_file_step(
    store: Seq<GridV>,
    idx: int,
    col: Seq<char>,
    gb: Option<Seq<Seq<char>>>,
    m: Seq<(Seq<char>, (Num, u64))>,
) -> Seq<(Seq<char>, (Num, u64))> {
    if 0 <= idx < store.len() {
        let g = store[idx];
        if g.len() > 0 {
            match header_index_spec(g[0], col) {
                Some(ci) => avg_rows(g, ci, gb, m, 1),
                None => m,
            }
        } else {
            m
        }
    } else {
        m
    }
}

/// The selected datasets from position `s` on, folded into `m`.
pub open spec fn avg_files(
    sel: Seq<usize>,
    store: Seq<GridV>,
    col: Seq<char>,
    gb: Option<Seq<Seq<char>>>,
    m: Seq<(Seq<char>, (Num, u64))>,
    s: int,
) -> Seq<(Seq<char>, (Num, u64))>
    decreases sel.len() - s,
{
    if 0 <= s < sel.len() {
        avg_files(sel, store, col, gb, avg_file_step(store, sel[s] as int, col, gb, m), s + 1)
    } else {
        m
    }
}

/// The per-key averages of `col` over the selected datasets: each key's
/// running sum divided by its row count.
pub open spec fn col_average_spec(
    sel: Seq<usize>,
    store: Seq<GridV>,
    col: Seq<char>,
    gb: Option<Seq<Seq<char>>>,
) -> Seq<(Seq<char>, Num)> {
    avg_files(sel, store, col, gb, Seq::empty(), 0).map_values(
        |e: (Seq<char>, (Num, u64))| (e.0, crate::num::div_by_count(e.1.0, e.1.1)),
    )
}

/// Every sum is well-formed and every count positive.
pub open spec fn avg_entries_wf(m: Seq<(Seq<char>, (Num, u64))>) -> bool {
    forall|i: int| 0 <= i < m.len() ==> (#[trigger] m[i].1).0.wf() && m[i].1.1 >= 1
}

/// Adds `v` into the sums and counts for `key`.
fn avg_add_entry(m: &mut Vec<(String, (Num, u64))>, key: String, v: Num)
    requires
        avg_entries_wf(old(m).deep_view()),
        v.wf(),
    ensures
        final(m).deep_view() == avg_upsert(old(m).deep_view(), key@, v),
        avg_entries_wf(final(m).deep_view()),
{
    let n = m.len();
    let mut j: usize = 0;
    while j < n
        invariant
            j <= n,
            n == m@.len(),
            *m == *old(m),
            avg_entries_wf(m.deep_view()),
            v.wf(),
            forall|k: int| 0 <= k < j ==> m.deep_view()[k].0 != key@,
        decreases n - j,
    {
        if str_eq(m[j].0.as_str(), key.as_str()) {
            proof {
                lemma_find_key(m.deep_view(), key@, j as int);
            }
            let k2 = m[j].0.clone();
            let cur = m[j].1.0;
            let cnt = m[j].1.1;
            proof {
                assert(m.deep_view()[j as int].1 == (cur, cnt));
                assert(m.deep_view()[j as int].1.0.wf());
            }
            let news = cur.add_or_keep(v);
            let newc = if cnt < u64::MAX {
                cnt + 1
            } else {
                cnt
            };
            let ghost oldm = *m;
            m[j] = (k2, (news, newc));
            proof {
                lemma_deep_view_update(oldm, *m, j as int, (k2, (news, newc)));
                assert(m.deep_view() =~= avg_upsert(oldm.deep_view(), key@, v));
                assert forall|i: int| 0 <= i < m.deep_view().len() implies (#[trigger] m.deep_view()[i].1).0.wf()
                    && m.deep_view()[i].1.1 >= 1 by {
                    if i != j {
                        assert(m.deep_view()[i] == oldm.deep_view()[i]);
                        assert(oldm.deep_view()[i].1.0.wf() && oldm.deep_view()[i].1.1 >= 1);
                    }
                }
            }
            return;
        }
        j = j + 1;
    }
    proof {
        lemma_find_key(m.deep_view(), key@, n as int);
    }
    let ghost oldm = *m;
    let ghost elem = (key, (v, 1u64));
    m.push((key, (v, 1u64)));
    proof {
        lemma_deep_view_push(oldm, *m, elem);
        assert(m.deep_view() =~= avg_upsert(oldm.deep_view(), elem.0@, v));
    }
}

/// Per-key averages of `column` over the selected datasets: for each key,
/// the sum of the parsed values divided by the number of contributing rows.
pub fn col_average(
    file_indexes: &Vec<usize>,
    csv_files: &Vec<(String, CsvGrid)>,
    column: &str,
    group_by: Option<&[String]>,
) -> (r: Vec<(String, Num)>)
    ensures
        r.deep_view() == col_average_spec(
            file_indexes@,
            store_grids(csv_files@),
            column@,
            opt_groups(group_by),
        ),
        entries_wf(r.deep_view()),
{
    let ghost sel = file_indexes@;
    let ghost store = store_grids(csv_files@);
    let ghost gb = opt_groups(group_by);
    let mut m: Vec<(String, (Num, u64))> = Vec::new();
    let nsel = file_indexes.len();
    let mut s: usize = 0;
    proof {
        assert(m.deep_view() =~= Seq::<(Seq<char>, (Num, u64))>::empty());
    }
    while s < nsel
        invariant
            s <= nsel,
            nsel == sel.len(),
            sel == file_indexes@,
            store == store_grids(csv_files@),
            gb == opt_groups(group_by),
            avg_files(sel, store, column@, gb, Seq::empty(), 0) == avg_files(
                sel,
                store,
                column@,
                gb,
                m.deep_view(),
                s as int,
            ),
            avg_entries_wf(m.deep_view()),
        decreases nsel - s,
    {
        let ghost m_in = m.deep_view();
        let idx = file_indexes[s];
        if idx < csv_files.len() {
            let grid = &csv_files[idx].1;
            let ghost gv = store[idx as int];
            proof {
                assert(gv == grid.deep_view());
            }
            if grid.len() > 0 {
                let headers = &grid[0];
                proof {
                    assert(headers.deep_view() == gv[0]);
                }
                match header_index(headers, column) {
                    Some(ci) => {
                        let nrows = grid.len();
                        let mut rr: usize = 1;
                        while rr < nrows
                            invariant
                                1 <= rr <= nrows,
                                nrows == grid@.len(),
                                idx < csv_files@.len(),
                                gv == grid.deep_view(),
                                headers.deep_view() == gv[0],
                                header_index_spec(gv[0], column@) == Some(ci as int),
                                gb == opt_groups(group_by),
                                avg_rows(gv, ci as int, gb, m_in, 1) == avg_rows(
                                    gv,
                                    ci as int,
                                    gb,
                                    m.deep_view(),
                                    rr as int,
                                ),
                                avg_entries_wf(m.deep_view()),
                            decreases nrows - rr,
                        {
                            let row = &grid[rr];
                            proof {
                                assert(row.deep_view() == gv[rr as int]);
                            }
                            if row.len() > ci {
                                let key = match group_by {
                                    Some(g) => build_group_key(headers, row, g),
                                    None => String::from_str("total"),
                                };
                                proof {
                                    assert(key@ == row_key(gv[0], gv[rr as int], gb));
                                }
                                match parse_number(row[ci].as_str()) {
                                    Some(v) => {
                                        proof {
                                            assert(row@[ci as int]@ == gv[rr as int][ci as int]);
                                        }
                                        avg_add_entry(&mut m, key, v);
                                    },
                                    None => {
                                        proof {
                                            assert(row@[ci as int]@ == gv[rr as int][ci as int]);
                                        }
                                    },
                                }
                            }
                            rr = rr + 1;
                        }
                    },
                    None => {
                    },
                }
            }
        }
        proof {
            assert(m.deep_view() == avg_file_step(store, idx as int, column@, gb, m_in));
        }
        s = s + 1;
    }
    let nm = m.len();
    let mut r: Vec<(String, Num)> = Vec::new();
    let mut j: usize = 0;
    while j < nm
        invariant
            j <= nm,
            nm == m@.len(),
            avg_entries_wf(m.deep_view()),
            r@.len() == j,
            forall|k: int| 0 <= k < j ==> r.deep_view()[k] == (
                m.deep_view()[k].0,
                crate::num::div_by_count(m.deep_view()[k].1.0, m.deep_view()[k].1.1),
            ),
            forall|k: int| 0 <= k < j ==> (#[trigger] r.deep_view()[k].1).wf(),
        decreases nm - j,
    {
        let k2 = m[j].0.clone();
        let sum = m[j].1.0;
        let cnt = m[j].1.1;
        proof {
            assert(m.deep_view()[j as int].1 == (sum, cnt));
            assert(m.deep_view()[j as int].1.0.wf() && m.deep_view()[j as int].1.1 >= 1);
        }
        let avg = sum.div_count(cnt);
        let ghost oldr = r;
        let ghost elem = (k2, avg);
        r.push((k2, avg));
        proof {
            lemma_deep_view_push(oldr, r, elem);
        }
        j = j + 1;
    }
    proof {
        assert(r.deep_view() =~= col_average_spec(
            file_indexes@,
            store_grids(csv_files@),
            column@,
            opt_groups(group_by),
        ));
    }
    r
}

/// The counting key of a row: its group key, or the cell value itself when
/// no grouping is active.
pub open spec fn count_row_key(
    headers: Seq<Seq<char>>,
    row: Seq<Seq<char>>,
    ci: int,
    gb: Option<Seq<Seq<char>>>,
) -> Seq<char> {
    match gb {
        Some(g) => group_key_spec(headers, row, g),
        None => row[ci],
    }
}

/// Counts one more row under `key`, appending the key when it is new.
pub open spec fn cnt_upsert(m: Seq<(Seq<char>, u64)>, key: Seq<char>) -> Seq<(Seq<char>, u64)> {
    match find_key(m, key) {
        Some(i) => m.update(i, (m[i].0, count_inc(m[i].1))),
        None => m.push((key, 1u64)),
    }
}

/// One row's contribution to the per-key row counts.
pub open spec fn cnt_row_step(
    headers: Seq<Seq<char>>,
    row: Seq<Seq<char>>,
    ci: int,
    gb: Option<Seq<Seq<char>>>,
    m: Seq<(Seq<char>, u64)>,
) -> Seq<(Seq<char>, u64)> {
    if row.len() > ci {
        cnt_upsert(m, count_row_key(headers, row, ci, gb))
    } else {
        m
    }
}

/// The data rows of `g` from row `r` on, folded into the counts `m`.
pub open spec fn cnt_rows(
    g: GridV,
    ci: int,
    gb: Option<Seq<Seq<char>>>,
    m: Seq<(Seq<char>, u64)>,
    r: int,
) -> Seq<(Seq<char>, u64)>
    decreases g.len() - r,
{
    if 1 <= r < g.len() {
        cnt_rows(g, ci, gb, cnt_row_step(g[0], g[r], ci, gb, m), r + 1)
    } else {
        m
    }
}

/// The header row of a grouped-count table: the group-by column names (or
/// the counted column itself), followed by `count`.
pub open spec fn count_header(gb: Option<Seq<Seq<char>>>, col: Seq<char>) -> Seq<Seq<char>> {
    (match gb {
        Some(g) => g,
        None => seq![col],
    }).push("count"@)
}

/// The cells a key is split back into: its separated components with empty
/// components dropped, or the key itself when it holds no separator.
pub open spec fn key_cells(key: Seq<char>) -> Seq<Seq<char>> {
    if crate::strings::has_char(key, '|') {
        crate::strings::nonempty_pieces(crate::strings::split_on(key, '|'))
    } else {
        seq![key]
    }
}

/// One data row of a grouped-count table: the key's cells, then the count.
pub open spec fn count_entry_row(e: (Seq<char>, u64)) -> Seq<Seq<char>> {
    key_cells(e.0).push(crate::num::dec_digits(e.1 as nat))
}

/// The data rows of a grouped-count table, one per distinct key in order.
pub open spec fn count_table_rows(m: Seq<(Seq<char>, u64)>) -> Seq<Seq<Seq<char>>> {
    Seq::new(m.len(), |i: int| count_entry_row(m[i]))
}

/// One selected dataset's contribution to the grouped-count table: its
/// header row followed by one row per distinct key.
pub open spec fn cnt_file_step(
    store: Seq<GridV>,
    idx: int,
    col: Seq<char>,
    gb: Option<Seq<Seq<char>>>,
    acc: Seq<Seq<Seq<char>>>,
) -> Seq<Seq<Seq<char>>> {
    if 0 <= idx < store.len() {
        let g = store[idx];
        if g.len() > 0 {
            match header_index_spec(g[0], col) {
                Some(ci) => acc + seq![count_header(gb, col)] + count_table_rows(
                    cnt_rows(g, ci, gb, Seq::empty(), 1),
                ),
                None => acc,
            }
        } else {
            acc
        }
    } else {
        acc
    }
}

/// The selected datasets from position `s` on, folded into the table `acc`.
pub open spec fn cnt_files(
    sel: Seq<usize>,
    store: Seq<GridV>,
    col: Seq<char>,
    gb: Option<Seq<Seq<char>>>,
    acc: Seq<Seq<Seq<char>>>,
    s: int,
) -> Seq<Seq<Seq<char>>>
    decreases sel.len() - s,
{
    if 0 <= s < sel.len() {
        cnt_files(sel, store, col, gb, cnt_file_step(store, sel[s] as int, col, gb, acc), s + 1)
    } else {
        acc
    }
}

/// The grouped-count table of `col` over the selected datasets.
pub open spec fn col_count_spec(
    sel: Seq<usize>,
    store: Seq<GridV>,
    col: Seq<char>,
    gb: Option<Seq<Seq<char>>>,
) -> Seq<Seq<Seq<char>>> {
    cnt_files(sel, store, col, gb, Seq::empty(), 0)
}

/// Counts one more row under `key`.
fn cnt_add_entry(m: &mut Vec<(String, u64)>, key: String)
    ensures
        final(m).deep_view() == cnt_upsert(old(m).deep_view(), key@),
{
    let n = m.len();
    let mut j: usize = 0;
    while j < n
        invariant
            j <= n,
            n == m@.len(),
            *m == *old(m),
            forall|k: int| 0 <= k < j ==> m.deep_view()[k].0 != key@,
        decreases n - j,
    {
        if str_eq(m[j].0.as_str(), key.as_str()) {
            proof {
                lemma_find_key(m.deep_view(), key@, j as int);
            }
            let k2 = m[j].0.clone();
            let cnt = m[j].1;
            let newc = if cnt < u64::MAX {
                cnt + 1
            } else {
                cnt
            };
            let ghost oldm = *m;
            m[j] = (k2, newc);
            proof {
                lemma_deep_view_update(oldm, *m, j as int, (k2, newc));
                assert(m.deep_view() =~= cnt_upsert(oldm.deep_view(), key@));
            }
            return;
        }
        j = j + 1;
    }
    proof {
        lemma_find_key(m.deep_view(), key@, n as int);
    }
    let ghost oldm = *m;
    let ghost elem = (key, 1u64);
    m.push((key, 1u64));
    proof {
        lemma_deep_view_push(oldm, *m, elem);
        assert(m.deep_view() =~= cnt_upsert(oldm.deep_view(), elem.0@));
    }
}

/// Splits a key back into its cells for a grouped-count table row.
fn key_components(key: &str) -> (r: Vec<String>)
    ensures
        r.deep_view() == key_cells(key@),
{
    if crate::strings::contains_char(key, '|') {
        let pieces = crate::strings::split_str(key, '|');
        crate::strings::filter_nonempty(&pieces)
    } else {
        let mut r: Vec<String> = Vec::new();
        r.push(key.to_owned());
        proof {
            assert(r.deep_view() =~= seq![key@]);
        }
        r
    }
}

/// The grouped-count table of `column` over the selected datasets: for each
/// selected grid that has the column, a header row (the group-by columns,
/// or the column itself, then `count`), followed by one row per distinct
/// key holding the key's cells and the number of rows sharing the key.
pub fn col_count(
    file_indexes: &Vec<usize>,
    csv_files: &Vec<(String, CsvGrid)>,
    column: &str,
    group_by: Option<&[String]>,
) -> (r: Vec<Vec<String>>)
    ensures
        r.deep_view() == col_count_spec(
            file_indexes@,
            store_grids(csv_files@),
            column@,
            opt_groups(group_by),
        ),
{
    let ghost sel = file_indexes@;
    let ghost store = store_grids(csv_files@);
    let ghost gb = opt_groups(group_by);
    let mut query_grid: Vec<Vec<String>> = Vec::new();
    let nsel = file_indexes.len();
    let mut s: usize = 0;
    proof {
        assert(query_grid.deep_view() =~= Seq::<Seq<Seq<char>>>::empty());
    }
    while s < nsel
        invariant
            s <= nsel,
            nsel == sel.len(),
            sel == file_indexes@,
            store == store_grids(csv_files@),
            gb == opt_groups(group_by),
            col_count_spec(sel, store, column@, gb) == cnt_files(
                sel,
                store,
                column@,
                gb,
                query_grid.deep_view(),
                s as int,
            ),
        decreases nsel - s,
    {
        let ghost acc_in = query_grid.deep_view();
        let idx = file_indexes[s];
        if idx < csv_files.len() {
            let grid = &csv_files[idx].1;
            let ghost gv = store[idx as int];
            proof {
                assert(gv == grid.deep_view());
            }
            if grid.len() > 0 {
                let headers = &grid[0];
                proof {
                    assert(headers.deep_view() == gv[0]);
                }
                match header_index(headers, column) {
                    Some(ci) => {
                        let mut counts: Vec<(String, u64)> = Vec::new();
                        let nrows = grid.len();
                        let mut rr: usize = 1;
                        proof {
                            assert(counts.deep_view() =~= Seq::<(Seq<char>, u64)>::empty());
                        }
                        while rr < nrows
                            invariant
                                1 <= rr <= nrows,
                                nrows == grid@.len(),
                                idx < csv_files@.len(),
                                gv == grid.deep_view(),
                                headers.deep_view() == gv[0],
                                header_index_spec(gv[0], column@) == Some(ci as int),
                                gb == opt_groups(group_by),
                                cnt_rows(gv, ci as int, gb, Seq::empty(), 1) == cnt_rows(
                                    gv,
                                    ci as int,
                                    gb,
                                    counts.deep_view(),
                                    rr as int,
                                ),
                            decreases nrows - rr,
                        {
                            let row = &grid[rr];
                            proof {
                                assert(row.deep_view() == gv[rr as int]);
                            }
                            if row.len() > ci {
                                let key = match group_by {
                                    Some(g) => build_group_key(headers, row, g),
                                    None => row[ci].clone(),
                                };
                                proof {
                                    assert(row@[ci as int]@ == gv[rr as int][ci as int]);
                                    assert(key@ == count_row_key(gv[0], gv[rr as int], ci as int, gb));
                                }
                                cnt_add_entry(&mut counts, key);
                            }
                            rr = rr + 1;
                        }
                        let mut header_row: Vec<String> = Vec::new();
                        match group_by {
                            Some(g) => {
                                let ng = g.len();
                                let mut t: usize = 0;
                                while t < ng
                                    invariant
                                        t <= ng,
                                        ng == g@.len(),
                                        header_row@.len() == t,
                                        forall|k: int| 0 <= k < t ==> header_row.deep_view()[k]
                                            == g.deep_view()[k],
                                    decreases ng - t,
                                {
                                    let cell = g[t].clone();
                                    let ghost oldh = header_row;
                                    let ghost cv = cell;
                                    header_row.push(cell);
                                    proof {
                                        lemma_deep_view_push(oldh, header_row, cv);
                                    }
                                    t = t + 1;
                                }
                            },
                            None => {
                                let cell = column.to_owned();
                                let ghost oldh = header_row;
                                let ghost cv = cell;
                                header_row.push(cell);
                                proof {
                                    lemma_deep_view_push(oldh, header_row, cv);
                                }
                            },
                        }
                        let cc = String::from_str("count");
                        let ghost oldh = header_row;
                        let ghost cv = cc;
                        header_row.push(cc);
                        proof {
                            lemma_deep_view_push(oldh, header_row, cv);
                            assert(header_row.deep_view() =~= count_header(gb, column@));
                        }
                        let ghost oldq = query_grid;
                        let ghost hv = header_row;
                        query_grid.push(header_row);
                        proof {
                            lemma_deep_view_push(oldq, query_grid, hv);
                        }
                        let ghost mfin = counts.deep_view();
                        let nent = counts.len();
                        let mut t: usize = 0;
                        while t < nent
                            invariant
                                t <= nent,
                                nent == counts@.len(),
                                mfin == counts.deep_view(),
                                query_grid.deep_view().len() == acc_in.len() + 1 + t,
                                query_grid.deep_view() == acc_in + seq![count_header(gb, column@)]
                                    + count_table_rows(mfin).take(t as int),
                            decreases nent - t,
                        {
                            let comps = key_components(counts[t].0.as_str());
                            let mut row: Vec<String> = comps;
                            proof {
                                assert(counts.deep_view()[t as int] == (counts@[t as int].0@, counts@[t as int].1));
                            }
                            let cstr = crate::num::u64_to_string(counts[t].1);
                            let ghost oldrow = row;
                            let ghost csv2 = cstr;
                            row.push(cstr);
                            proof {
                                lemma_deep_view_push(oldrow, row, csv2);
                                assert(row.deep_view() =~= count_entry_row(mfin[t as int]));
                            }
                            let ghost oldq2 = query_grid;
                            let ghost rv = row;
                            query_grid.push(row);
                            proof {
                                lemma_deep_view_push(oldq2, query_grid, rv);
                                assert(count_table_rows(mfin).take(t + 1) =~= count_table_rows(
                                    mfin,
                                ).take(t as int).push(count_entry_row(mfin[t as int])));
                                assert(query_grid.deep_view() =~= acc_in + seq![count_header(
                                    gb,
                                    column@,
                                )] + count_table_rows(mfin).take(t + 1));
                            }
                            t = t + 1;
                        }
                        proof {
                            assert(count_table_rows(mfin).take(nent as int) =~= count_table_rows(
                                mfin,
                            ));
                            assert(query_grid.deep_view() == cnt_file_step(
                                store,
                                idx as int,
                                column@,
                                gb,
                                acc_in,
                            ));
                        }
                    },
                    None => {
                    },
                }
            }
        }
        proof {
            assert(query_grid.deep_view() == cnt_file_step(store, idx as int, column@, gb, acc_in));
        }
        s = s + 1;
    }
    query_grid
}

/// Whether a row is kept by the equality filter: its cell in the filter
/// column equals the text `val`.
pub open spec fn fe_keep(row: Seq<Seq<char>>, ci: int, val: Seq<char>) -> bool {
    row.len() > ci && row[ci] == val
}

/// The data rows of `g` from `r` on that the equality filter keeps.
pub open spec fn fe_rows(
    g: GridV,
    ci: int,
    val: Seq<char>,
    acc: Seq<Seq<Seq<char>>>,
    r: int,
) -> Seq<Seq<Seq<char>>>
    decreases g.len() - r,
{
    if 1 <= r < g.len() {
        fe_rows(
            g,
            ci,
            val,
            if fe_keep(g[r], ci, val) {
                acc.push(g[r])
            } else {
                acc
            },
            r + 1,
        )
    } else {
        acc
    }
}

/// One selected dataset's contribution to the equality filter: its header
/// row followed by its matching rows.
pub open spec fn fe_file_step(
    store: Seq<GridV>,
    idx: int,
    col: Seq<char>,
    val: Seq<char>,
    acc: Seq<Seq<Seq<char>>>,
) -> Seq<Seq<Seq<char>>> {
    if 0 <= idx < store.len() {
        let g = store[idx];
        if g.len() > 0 {
            match header_index_spec(g[0], col) {
                Some(ci) => fe_rows(g, ci, val, acc.push(g[0]), 1),
                None => acc,
            }
        } else {
            acc
        }
    } else {
        acc
    }
}

/// The selected datasets from position `s` on, folded into `acc`.
pub open spec fn fe_files(
    sel: Seq<usize>,
    store: Seq<GridV>,
    col: Seq<char>,
    val: Seq<char>,
    acc: Seq<Seq<Seq<char>>>,
    s: int,
) -> Seq<Seq<Seq<char>>>
    decreases sel.len() - s,
{
    if 0 <= s < sel.len() {
        fe_files(sel, store, col, val, fe_file_step(store, sel[s] as int, col, val, acc), s + 1)
    } else {
        acc
    }
}

/// The rows of the selected datasets whose cell in `col` equals `val`,
/// each dataset's header first.
pub open spec fn filter_equals_spec(
    sel: Seq<usize>,
    store: Seq<GridV>,
    col: Seq<char>,
    val: Seq<char>,
) -> Seq<Seq<Seq<char>>> {
    fe_files(sel, store, col, val, Seq::empty(), 0)
}

/// Whether a row is kept by the greater-than filter: its cell in the filter
/// column parses as a number strictly greater than `val`.
pub open spec fn fgt_keep(row: Seq<Seq<char>>, ci: int, val: Num) -> bool {
    row.len() > ci && match parse_num_spec(row[ci]) {
        Some(x) => val.rat_lt(x),
        None => false,
    }
}

/// The data rows of `g` from `r` on that the greater-than filter keeps.
pub open spec fn fgt_rows(
    g: GridV,
    ci: int,
    val: Num,
    acc: Seq<Seq<Seq<char>>>,
    r: int,
) -> Seq<Seq<Seq<char>>>
    decreases g.len() - r,
{
    if 1 <= r < g.len() {
        fgt_rows(
            g,
            ci,
            val,
            if fgt_keep(g[r], ci, val) {
                acc.push(g[r])
            } else {
                acc
            },
            r + 1,
        )
    } else {
        acc
    }
}

/// One selected dataset's contribution to the greater-than filter.
pub open spec fn fgt_file_step(
    store: Seq<GridV>,
    idx: int,
    col: Seq<char>,
    val: Num,
    acc: Seq<Seq<Seq<char>>>,
) -> Seq<Seq<Seq<char>>> {
    if 0 <= idx < store.len() {
        let g = store[idx];
        if g.len() > 0 {
            match header_index_spec(g[0], col) {
                Some(ci) => fgt_rows(g, ci, val, acc.push(g[0]), 1),
                None => acc,
            }
        } else {
            acc
        }
    } else {
        acc
    }
}

/// The selected datasets from position `s` on, folded into `acc`.
pub open spec fn fgt_files(
    sel: Seq<usize>,
    store: Seq<GridV>,
    col: Seq<char>,
    val: Num,
    acc: Seq<Seq<Seq<char>>>,
    s: int,
) -> Seq<Seq<Seq<char>>>
    decreases sel.len() - s,
{
    if 0 <= s < sel.len() {
        fgt_files(sel, store, col, val, fgt_file_step(store, sel[s] as int, col, val, acc), s + 1)
    } else {
        acc
    }
}

/// The rows of the selected datasets whose cell in `col` parses as a
/// number greater than `val`, each dataset's header first.
pub open spec fn filter_greater_than_spec(
    sel: Seq<usize>,
    store: Seq<GridV>,
    col: Seq<char>,
    val: Num,
) -> Seq<Seq<Seq<char>>> {
    fgt_files(sel, store, col, val, Seq::empty(), 0)
}

/// Clones a row of cells, preserving its deep view.
fn clone_row(row: &Vec<String>) -> (r: Vec<String>)
    ensures
        r.deep_view() == row.deep_view(),
{
    let r = row.clone();
    proof {
        crate::strings::lemma_clone_str_vec(*row, r);
    }
    r
}

/// Keeps, for each selected dataset that has `column`, its header row and
/// every data row whose cell in `column` equals the text `value`.
pub fn filter_equals(
    file_indexes: &Vec<usize>,
    csv_files: &Vec<(String, CsvGrid)>,
    column: &str,
    value: &str,
) -> (r: Vec<Vec<String>>)
    ensures
        r.deep_view() == filter_equals_spec(
            file_indexes@,
            store_grids(csv_files@),
            column@,
            value@,
        ),
{
    let ghost sel = file_indexes@;
    let ghost store = store_grids(csv_files@);
    let mut result: Vec<Vec<String>> = Vec::new();
    let nsel = file_indexes.len();
    let mut s: usize = 0;
    proof {
        assert(result.deep_view() =~= Seq::<Seq<Seq<char>>>::empty());
    }
    while s < nsel
        invariant
            s <= nsel,
            nsel == sel.len(),
            sel == file_indexes@,
            store == store_grids(csv_files@),
            filter_equals_spec(sel, store, column@, value@) == fe_files(
                sel,
                store,
                column@,
                value@,
                result.deep_view(),
                s as int,
            ),
        decreases nsel - s,
    {
        let ghost acc_in = result.deep_view();
        let idx = file_indexes[s];
        if idx < csv_files.len() {
            let grid = &csv_files[idx].1;
            let ghost gv = store[idx as int];
            proof {
                assert(gv == grid.deep_view());
            }
            if grid.len() > 0 {
                let headers = &grid[0];
                proof {
                    assert(headers.deep_view() == gv[0]);
                }
                match header_index(headers, column) {
                    Some(ci) => {
                        let hrow = clone_row(headers);
                        let ghost oldr = result;
                        let ghost hv = hrow;
                        result.push(hrow);
                        proof {
                            lemma_deep_view_push(oldr, result, hv);
                        }
                        let nrows = grid.len();
                        let mut rr: usize = 1;
                        while rr < nrows
                            invariant
                                1 <= rr <= nrows,
                                nrows == grid@.len(),
                                idx < csv_files@.len(),
                                gv == grid.deep_view(),
                                header_index_spec(gv[0], column@) == Some(ci as int),
                                fe_rows(gv, ci as int, value@, acc_in.push(gv[0]), 1) == fe_rows(
                                    gv,
                                    ci as int,
                                    value@,
                                    result.deep_view(),
                                    rr as int,
                                ),
                            decreases nrows - rr,
                        {
                            let row = &grid[rr];
                            proof {
                                assert(row.deep_view() == gv[rr as int]);
                            }
                            if row.len() > ci && str_eq(row[ci].as_str(), value) {
                                proof {
                                    assert(row@[ci as int]@ == gv[rr as int][ci as int]);
                                }
                                let kept = clone_row(row);
                                let ghost oldr2 = result;
                                let ghost kv = kept;
                                result.push(kept);
                                proof {
                                    lemma_deep_view_push(oldr2, result, kv);
                                }
                            } else {
                                proof {
                                    if row.len() > ci {
                                        assert(row@[ci as int]@ == gv[rr as int][ci as int]);
                                    }
                                    assert(!fe_keep(gv[rr as int], ci as int, value@));
                                }
                            }
                            rr = rr + 1;
                        }
                    },
                    None => {
                    },
                }
            }
        }
        proof {
            assert(result.deep_view() == fe_file_step(store, idx as int, column@, value@, acc_in));
        }
        s = s + 1;
    }
    result
}

/// Keeps, for each selected dataset that has `column`, its header row and
/// every data row whose cell in `column` parses as a number greater than
/// `value`; unparsable cells are excluded without error.
pub fn filter_greater_than(
    file_indexes: &Vec<usize>,
    csv_files: &Vec<(String, CsvGrid)>,
    column: &str,
    value: Num,
) -> (r: Vec<Vec<String>>)
    requires
        value.wf(),
    ensures
        r.deep_view() == filter_greater_than_spec(
            file_indexes@,
            store_grids(csv_files@),
            column@,
            value,
        ),
{
    let ghost sel = file_indexes@;
    let ghost store = store_grids(csv_files@);
    let mut result: Vec<Vec<String>> = Vec::new();
    let nsel = file_indexes.len();
    let mut s: usize = 0;
    proof {
        assert(result.deep_view() =~= Seq::<Seq<Seq<char>>>::empty());
    }
    while s < nsel
        invariant
            s <= nsel,
            nsel == sel.len(),
            sel == file_indexes@,
            store == store_grids(csv_files@),
            value.wf(),
            filter_greater_than_spec(sel, store, column@, value) == fgt_files(
                sel,
                store,
                column@,
                value,
                result.deep_view(),
                s as int,
            ),
        decreases nsel - s,
    {
        let ghost acc_in = result.deep_view();
        let idx = file_indexes[s];
        if idx < csv_files.len() {
            let grid = &csv_files[idx].1;
            let ghost gv = store[idx as int];
            proof {
                assert(gv == grid.deep_view());
            }
            if grid.len() > 0 {
                let headers = &grid[0];
                proof {
                    assert(headers.deep_view() == gv[0]);
                }
                match header_index(headers, column) {
                    Some(ci) => {
                        let hrow = clone_row(headers);
                        let ghost oldr = result;
                        let ghost hv = hrow;
                        result.push(hrow);
                        proof {
                            lemma_deep_view_push(oldr, result, hv);
                        }
                        let nrows = grid.len();
                        let mut rr: usize = 1;
                        while rr < nrows
                            invariant
                                1 <= rr <= nrows,
                                nrows == grid@.len(),
                                idx < csv_files@.len(),
                                gv == grid.deep_view(),
                                value.wf(),
                                header_index_spec(gv[0], column@) == Some(ci as int),
                                fgt_rows(gv, ci as int, value, acc_in.push(gv[0]), 1) == fgt_rows(
                                    gv,
                                    ci as int,
                                    value,
                                    result.deep_view(),
                                    rr as int,
                                ),
                            decreases nrows - rr,
                        {
                            let row = &grid[rr];
                            proof {
                                assert(row.deep_view() == gv[rr as int]);
                            }
                            let mut keep = false;
                            if row.len() > ci {
                                proof {
                                    assert(row@[ci as int]@ == gv[rr as int][ci as int]);
                                }
                                match parse_number(row[ci].as_str()) {
                                    Some(x) => {
                                        keep = value.lt(x);
                                    },
                                    None => {
                                    },
                                }
                            }
                            proof {
                                assert(keep == fgt_keep(gv[rr as int], ci as int, value));
                            }
                            if keep {
                                let kept = clone_row(row);
                                let ghost oldr2 = result;
                                let ghost kv = kept;
                                result.push(kept);
                                proof {
                                    lemma_deep_view_push(oldr2, result, kv);
                                }
                            }
                            rr = rr + 1;
                        }
                    },
                    None => {
                    },
                }
            }
        }
        proof {
            assert(result.deep_view() == fgt_file_step(store, idx as int, column@, value, acc_in));
        }
        s = s + 1;
    }
    result
}

/// Every value of the association list is well-formed.
pub open spec fn entries_wf(m: Seq<(Seq<char>, Num)>) -> bool {
    forall|i: int| 0 <= i < m.len() ==> (#[trigger] m[i].1).wf()
}

/// Adds `v` to the entry for `key`, appending the key when it is new.
fn add_entry(m: &mut Vec<(String, Num)>, key: String, v: Num)
    requires
        entries_wf(old(m).deep_view()),
        v.wf(),
    ensures
        final(m).deep_view() == sum_upsert(old(m).deep_view(), key@, v),
        entries_wf(final(m).deep_view()),
{
    let n = m.len();
    let mut j: usize = 0;
    while j < n
        invariant
            j <= n,
            n == m@.len(),
            *m == *old(m),
            entries_wf(m.deep_view()),
            v.wf(),
            forall|k: int| 0 <= k < j ==> m.deep_view()[k].0 != key@,
        decreases n - j,
    {
        if str_eq(m[j].0.as_str(), key.as_str()) {
            proof {
                lemma_find_key(m.deep_view(), key@, j as int);
            }
            let k2 = m[j].0.clone();
            let cur = m[j].1;
            proof {
                assert(m.deep_view()[j as int].1 == cur);
                assert(m.deep_view()[j as int].1.wf());
            }
            let newv = cur.add_or_keep(v);
            let ghost oldm = *m;
            m[j] = (k2, newv);
            proof {
                lemma_deep_view_update(oldm, *m, j as int, (k2, newv));
                assert(m.deep_view() =~= sum_upsert(oldm.deep_view(), key@, v));
                assert forall|i: int| 0 <= i < m.deep_view().len() implies (#[trigger] m.deep_view()[i].1).wf() by {
                    if i != j {
                        assert(m.deep_view()[i] == oldm.deep_view()[i]);
                        assert(oldm.deep_view()[i].1.wf());
                    }
                }
            }
            return;
        }
        j = j + 1;
    }
    proof {
        lemma_find_key(m.deep_view(), key@, n as int);
    }
    let ghost oldm = *m;
    let ghost elem = (key, v);
    m.push((key, v));
    proof {
        lemma_deep_view_push(oldm, *m, elem);
        assert(m.deep_view() =~= sum_upsert(oldm.deep_view(), elem.0@, v));
    }
}

/// Per-key sums of `column` over the selected datasets. For every data row
/// of every selected grid whose cell in `column` parses as a number, the
/// value is added to the row's group key (or to the key `total` when
/// `group_by` is absent); non-numeric and missing cells contribute nothing.
pub fn col_sum(
    file_indexes: &Vec<usize>,
    csv_files: &Vec<(String, CsvGrid)>,
    column: &str,
    group_by: Option<&[String]>,
) -> (r: Vec<(String, Num)>)
    ensures
        r.deep_view() == col_sum_spec(
            file_indexes@,
            store_grids(csv_files@),
            column@,
            opt_groups(group_by),
        ),
        entries_wf(r.deep_view()),
{
    let ghost sel = file_indexes@;
    let ghost store = store_grids(csv_files@);
    let ghost gb = opt_groups(group_by);
    let mut m: Vec<(String, Num)> = Vec::new();
    let nsel = file_indexes.len();
    let mut s: usize = 0;
    proof {
        assert(m.deep_view() =~= Seq::<(Seq<char>, Num)>::empty());
    }
    while s < nsel
        invariant
            s <= nsel,
            nsel == sel.len(),
            sel == file_indexes@,
            store == store_grids(csv_files@),
            gb == opt_groups(group_by),
            col_sum_spec(sel, store, column@, gb) == sum_files(
                sel,
                store,
                column@,
                gb,
                m.deep_view(),
                s as int,
            ),
            entries_wf(m.deep_view()),
        decreases nsel - s,
    {
        let ghost m_in = m.deep_view();
        let idx = file_indexes[s];
        if idx < csv_files.len() {
            let grid = &csv_files[idx].1;
            let ghost gv = store[idx as int];
            proof {
                assert(gv == grid.deep_view());
            }
            if grid.len() > 0 {
                let headers = &grid[0];
                proof {
                    assert(headers.deep_view() == gv[0]);
                }
                match header_index(headers, column) {
                    Some(ci) => {
                        let nrows = grid.len();
                        let mut rr: usize = 1;
                        while rr < nrows
                            invariant
                                1 <= rr <= nrows,
                                nrows == grid@.len(),
                                idx < csv_files@.len(),
                                gv == grid.deep_view(),
                                headers.deep_view() == gv[0],
                                header_index_spec(gv[0], column@) == Some(ci as int),
                                gb == opt_groups(group_by),
                                sum_rows(gv, ci as int, gb, m_in, 1) == sum_rows(
                                    gv,
                                    ci as int,
                                    gb,
                                    m.deep_view(),
                                    rr as int,
                                ),
                                entries_wf(m.deep_view()),
                            decreases nrows - rr,
                        {
                            let row = &grid[rr];
                            proof {
                                assert(row.deep_view() == gv[rr as int]);
                            }
                            if row.len() > ci {
                                let key = match group_by {
                                    Some(g) => build_group_key(headers, row, g),
                                    None => String::from_str("total"),
                                };
                                proof {
                                    assert(key@ == row_key(gv[0], gv[rr as int], gb));
                                }
                                match parse_number(row[ci].as_str()) {
                                    Some(v) => {
                                        proof {
                                            assert(row@[ci as int]@ == gv[rr as int][ci as int]);
                                        }
                                        add_entry(&mut m, key, v);
                                    },
                                    None => {
                                        proof {
                                            assert(row@[ci as int]@ == gv[rr as int][ci as int]);
                                            assert(m.deep_view() == sum_row_step(
                                                gv[0],
                                                gv[rr as int],
                                                ci as int,
                                                gb,
                                                m.deep_view(),
                                            ));
                                        }
                                    },
                                }
                            }
                            rr = rr + 1;
                        }
                        proof {
                            assert(sum_rows(gv, ci as int, gb, m.deep_view(), nrows as int)
                                == m.deep_view());
                        }
                    },
                    None => {
                    },
                }
            }
        }
        proof {
            assert(m.deep_view() == sum_file_step(store, idx as int, column@, gb, m_in));
        }
        s = s + 1;
    }
    m
}

} // verus!
