//! Laws of the aggregation primitives and the evaluator, stated over their
//! specifications and proved once for all inputs.

use vstd::prelude::*;
use crate::aggregate::{
    GridV, cnt_file_step, cnt_files, cnt_rows, col_count_spec, col_sum_spec, count_header,
    count_table_rows, find_key, row_key, sum_file_step, sum_files, sum_row_step, sum_rows,
    sum_upsert,
};
use crate::eval::{
    EvalStateV, cap_opt, csum_scalar, empty_state, eval_at, eval_pipeline_spec, finalize,
    grp_scan, is_keyword, sum_values_from,
};
use crate::grid::header_index_spec;
use crate::num::{Num, lemma_parse_wf, parse_num_spec, sum_or_keep};
use crate::value::ValueV;

verus! {

/// One row's contribution to the running total of a column: the parsed
/// value of its cell added on, regardless of any grouping.
pub open spec fn total_row_step(row: Seq<Seq<char>>, ci: int, acc: Num) -> Num {
    if row.len() > ci {
        match parse_num_spec(row[ci]) {
            Some(v) => sum_or_keep(acc, v),
            None => acc,
        }
    } else {
        acc
    }
}

/// The running total of a column over the data rows of `g` from `r` on.
pub open spec fn total_rows(g: GridV, ci: int, acc: Num, r: int) -> Num
    decreases g.len() - r,
{
    if 1 <= r < g.len() {
        total_rows(g, ci, total_row_step(g[r], ci, acc), r + 1)
    } else {
        acc
    }
}

/// One selected dataset's contribution to the running total.
pub open spec fn total_file_step(store: Seq<GridV>, idx: int, col: Seq<char>, acc: Num) -> Num {
    if 0 <= idx < store.len() {
        let g = store[idx];
        if g.len() > 0 {
            match header_index_spec(g[0], col) {
                Some(ci) => total_rows(g, ci, acc, 1),
                None => acc,
            }
        } else {
            acc
        }
    } else {
        acc
    }
}

/// The running total over the selected datasets from position `s` on.
pub open spec fn total_files(sel: Seq<usize>, store: Seq<GridV>, col: Seq<char>, acc: Num, s: int) -> Num
    decreases sel.len() - s,
{
    if 0 <= s < sel.len() {
        total_files(sel, store, col, total_file_step(store, sel[s] as int, col, acc), s + 1)
    } else {
        acc
    }
}

/// The arithmetic sum of the parsed values of `col` over every data row of
/// every selected dataset, accumulated in scan order from zero.
pub open spec fn csum_total(sel: Seq<usize>, store: Seq<GridV>, col: Seq<char>) -> Num {
    total_files(sel, store, col, Num { num: 0, den: 1 }, 0)
}

/// The ungrouped per-key sums are either empty (no cell contributed) or a
/// single entry under the key `total` holding the running total.
spec fn ungrouped_inv(m: Seq<(Seq<char>, Num)>, acc: Num) -> bool {
    &&& acc.wf()
    &&& (m =~= Seq::<(Seq<char>, Num)>::empty() && acc == Num { num: 0, den: 1 } || m =~= seq![
        ("total"@, acc),
    ])
}

/// Adding to zero is exact: the sum step from zero returns the value.
proof fn lemma_sum_from_zero(v: Num)
    requires
        v.wf(),
    ensures
        sum_or_keep(Num { num: 0, den: 1 }, v) == v,
{
}

/// One ungrouped row step keeps the single-key shape, with the entry
/// tracking the running total.
proof fn lemma_ungrouped_row(headers: Seq<Seq<char>>, row: Seq<Seq<char>>, ci: int, m: Seq<(Seq<char>, Num)>, acc: Num)
    requires
        ungrouped_inv(m, acc),
    ensures
        ungrouped_inv(sum_row_step(headers, row, ci, None, m), total_row_step(row, ci, acc)),
{
    if row.len() > ci {
        match parse_num_spec(row[ci]) {
            Some(v) => {
                lemma_parse_wf(row[ci]);
                crate::num::lemma_sum_or_keep_wf(acc, v);
                assert(row_key(headers, row, None) == "total"@);
                if m.len() == 0 {
                    assert(find_key(m, "total"@) is None);
                    lemma_sum_from_zero(v);
                    assert(sum_upsert(m, "total"@, v) =~= seq![("total"@, v)]);
                } else {
                    assert(m =~= seq![("total"@, acc)]);
                    assert(m.first().0 == "total"@);
                    assert(find_key(m, "total"@) == Some(0int));
                    assert(sum_upsert(m, "total"@, v) =~= seq![
                        ("total"@, sum_or_keep(acc, v)),
                    ]);
                }
            },
            None => {
            },
        }
    }
}

/// The ungrouped rows fold keeps the single-key shape.
proof fn lemma_ungrouped_rows(g: GridV, ci: int, m: Seq<(Seq<char>, Num)>, acc: Num, r: int)
    requires
        ungrouped_inv(m, acc),
    ensures
        ungrouped_inv(sum_rows(g, ci, None, m, r), total_rows(g, ci, acc, r)),
    decreases g.len() - r,
{
    if 1 <= r < g.len() {
        lemma_ungrouped_row(g[0], g[r], ci, m, acc);
        lemma_ungrouped_rows(g, ci, sum_row_step(g[0], g[r], ci, None, m), total_row_step(g[r], ci, acc), r + 1);
    }
}

/// The ungrouped files fold keeps the single-key shape.
proof fn lemma_ungrouped_files(sel: Seq<usize>, store: Seq<GridV>, col: Seq<char>, m: Seq<(Seq<char>, Num)>, acc: Num, s: int)
    requires
        ungrouped_inv(m, acc),
    ensures
        ungrouped_inv(sum_files(sel, store, col, None, m, s), total_files(sel, store, col, acc, s)),
    decreases sel.len() - s,
{
    if 0 <= s < sel.len() {
        let idx = sel[s] as int;
        if 0 <= idx < store.len() && store[idx].len() > 0 && header_index_spec(
            store[idx][0],
            col,
        ) is Some {
            lemma_ungrouped_rows(
                store[idx],
                header_index_spec(store[idx][0], col)->Some_0,
                m,
                acc,
                1,
            );
        }
        assert(ungrouped_inv(sum_file_step(store, idx, col, None, m), total_file_step(store, idx, col, acc)));
        lemma_ungrouped_files(
            sel,
            store,
            col,
            sum_file_step(store, idx, col, None, m),
            total_file_step(store, idx, col, acc),
            s + 1,
        );
    }
}

/// With no active group, the scalar of `CSUM` is exactly the arithmetic
/// sum of the parsed values of the column over every data row of every
/// selected dataset, accumulated in scan order.
pub proof fn lemma_csum_ungrouped(sel: Seq<usize>, store: Seq<GridV>, col: Seq<char>)
    ensures
        csum_scalar(col_sum_spec(sel, store, col, None)) == csum_total(sel, store, col),
{
    lemma_ungrouped_files(sel, store, col, Seq::empty(), Num { num: 0, den: 1 }, 0);
    let m = col_sum_spec(sel, store, col, None);
    let acc = csum_total(sel, store, col);
    assert(ungrouped_inv(m, acc));
    if m.len() == 0 {
        assert(csum_scalar(m) == acc);
    } else {
        assert(m =~= seq![("total"@, acc)]);
        lemma_sum_from_zero(acc);
        assert(sum_values_from(m, Num { num: 0, den: 1 }, 0) == sum_values_from(
            m,
            sum_or_keep(Num { num: 0, den: 1 }, m[0].1),
            1,
        ));
        assert(csum_scalar(m) == acc);
    }
}

/// An unbounded rational, used to track the exact value of running sums.
pub ghost struct Rat {
    pub n: int,
    pub d: int,
}

/// The rational a machine value denotes.
pub open spec fn rat_of(x: Num) -> Rat {
    Rat { n: x.num as int, d: x.den as int }
}

/// Unreduced rational addition.
pub open spec fn rat_add(a: Rat, b: Rat) -> Rat {
    Rat { n: a.n * b.d + b.n * a.d, d: a.d * b.d }
}

/// The rational total of the values of `m` from position `j` on, added
/// onto `acc`.
pub open spec fn rsum(m: Seq<(Seq<char>, Num)>, acc: Rat, j: int) -> Rat
    decreases m.len() - j,
{
    if 0 <= j < m.len() {
        rsum(m, rat_add(acc, rat_of(m[j].1)), j + 1)
    } else {
        acc
    }
}

/// An in-range machine addition computes exact rational addition.
proof fn lemma_add_exact(a: Num, b: Num)
    requires
        crate::num::sum_fits(a, b),
    ensures
        rat_of(sum_or_keep(a, b)) == rat_add(rat_of(a), rat_of(b)),
{
}

/// Adding two values onto an accumulator commutes.
#[verifier::rlimit(50)]
proof fn lemma_add_swap(a: Rat, w: Rat, x: Rat)
    ensures
        rat_add(rat_add(a, w), x) == rat_add(rat_add(a, x), w),
{
    assert((a.n * w.d + w.n * a.d) * x.d == a.n * w.d * x.d + w.n * a.d * x.d)
        by (nonlinear_arith);
    assert((a.n * x.d + x.n * a.d) * w.d == a.n * x.d * w.d + x.n * a.d * w.d)
        by (nonlinear_arith);
    assert(a.n * w.d * x.d == a.n * x.d * w.d) by (nonlinear_arith);
    assert(w.n * a.d * x.d == w.n * (a.d * x.d)) by (nonlinear_arith);
    assert(x.n * (a.d * w.d) == x.n * a.d * w.d) by (nonlinear_arith);
    assert((a.d * w.d) * x.d == (a.d * x.d) * w.d) by (nonlinear_arith);
}

/// Rational addition is associative on unreduced representations.
#[verifier::rlimit(50)]
proof fn lemma_add_assoc(a: Rat, b: Rat, c: Rat)
    ensures
        rat_add(a, rat_add(b, c)) == rat_add(rat_add(a, b), c),
{
    assert((b.n * c.d + c.n * b.d) * a.d == b.n * c.d * a.d + c.n * b.d * a.d)
        by (nonlinear_arith);
    assert((a.n * b.d + b.n * a.d) * c.d == a.n * b.d * c.d + b.n * a.d * c.d)
        by (nonlinear_arith);
    assert(a.n * (b.d * c.d) == a.n * b.d * c.d) by (nonlinear_arith);
    assert(c.n * (a.d * b.d) == c.n * b.d * a.d) by (nonlinear_arith);
    assert(b.n * c.d * a.d == b.n * a.d * c.d) by (nonlinear_arith);
    assert(a.d * (b.d * c.d) == (a.d * b.d) * c.d) by (nonlinear_arith);
}

/// A value added into the accumulator can be added after the fold instead.
proof fn lemma_rsum_shift(m: Seq<(Seq<char>, Num)>, acc: Rat, w: Rat, j: int)
    ensures
        rsum(m, rat_add(acc, w), j) == rat_add(rsum(m, acc, j), w),
    decreases m.len() - j,
{
    if 0 <= j < m.len() {
        lemma_add_swap(acc, w, rat_of(m[j].1));
        lemma_rsum_shift(m, rat_add(acc, rat_of(m[j].1)), w, j + 1);
    }
}

/// Folds over lists that agree from `j` on agree.
proof fn lemma_rsum_congr(m1: Seq<(Seq<char>, Num)>, m2: Seq<(Seq<char>, Num)>, acc: Rat, j: int)
    requires
        m1.len() == m2.len(),
        forall|k: int| j <= k < m1.len() ==> m1[k] == m2[k],
    ensures
        rsum(m1, acc, j) == rsum(m2, acc, j),
    decreases m1.len() - j,
{
    if 0 <= j < m1.len() {
        lemma_rsum_congr(m1, m2, rat_add(acc, rat_of(m1[j].1)), j + 1);
    }
}

/// Appending an entry adds its value to the fold.
proof fn lemma_rsum_push(m: Seq<(Seq<char>, Num)>, e: (Seq<char>, Num), acc: Rat, j: int)
    requires
        0 <= j <= m.len(),
    ensures
        rsum(m.push(e), acc, j) == rat_add(rsum(m, acc, j), rat_of(e.1)),
    decreases m.len() - j,
{
    if j < m.len() {
        assert(m.push(e)[j] == m[j]);
        lemma_rsum_push(m, e, rat_add(acc, rat_of(m[j].1)), j + 1);
    } else {
        assert(m.push(e)[j] == e);
        assert(rsum(m.push(e), acc, j) == rsum(m.push(e), rat_add(acc, rat_of(e.1)), j + 1));
        assert(j + 1 == m.push(e).len());
        assert(rsum(m.push(e), rat_add(acc, rat_of(e.1)), j + 1) == rat_add(acc, rat_of(e.1)));
    }
}

/// Replacing an entry by its exact sum with `v` adds `v` to the fold.
proof fn lemma_rsum_update(
    m: Seq<(Seq<char>, Num)>,
    i: int,
    e2: (Seq<char>, Num),
    v: Num,
    acc: Rat,
    j: int,
)
    requires
        0 <= j <= i < m.len(),
        rat_of(e2.1) == rat_add(rat_of(m[i].1), rat_of(v)),
    ensures
        rsum(m.update(i, e2), acc, j) == rat_add(rsum(m, acc, j), rat_of(v)),
    decreases m.len() - j,
{
    let mu = m.update(i, e2);
    if j < i {
        assert(mu[j] == m[j]);
        lemma_rsum_update(m, i, e2, v, rat_add(acc, rat_of(m[j].1)), j + 1);
    } else {
        assert(mu[i] == e2);
        assert(rsum(mu, acc, i) == rsum(mu, rat_add(acc, rat_of(e2.1)), i + 1));
        assert forall|k: int| i + 1 <= k < m.len() implies mu[k] == m[k] by {}
        lemma_rsum_congr(mu, m, rat_add(acc, rat_of(e2.1)), i + 1);
        lemma_add_assoc(acc, rat_of(m[i].1), rat_of(v));
        assert(rat_add(acc, rat_of(e2.1)) == rat_add(rat_add(acc, rat_of(m[i].1)), rat_of(v)));
        lemma_rsum_shift(m, rat_add(acc, rat_of(m[i].1)), rat_of(v), i + 1);
    }
}

/// A found key is at a valid position and matches.
proof fn lemma_find_key_valid<V>(m: Seq<(Seq<char>, V)>, key: Seq<char>)
    ensures
        find_key(m, key) matches Some(i) ==> 0 <= i < m.len() && m[i].0 == key,
    decreases m.len(),
{
    if m.len() > 0 && m.first().0 != key {
        lemma_find_key_valid(m.drop_first(), key);
        if find_key(m.drop_first(), key) is Some {
            let i = find_key(m.drop_first(), key)->Some_0;
            assert(m.drop_first()[i] == m[i + 1]);
        }
    }
}

/// The addition this upsert performs stays in range.
pub open spec fn upsert_fits(m: Seq<(Seq<char>, Num)>, key: Seq<char>, v: Num) -> bool {
    match find_key(m, key) {
        Some(i) => crate::num::sum_fits(m[i].1, v),
        None => true,
    }
}

/// The addition this row step performs, if any, stays in range.
pub open spec fn row_step_fits(
    headers: Seq<Seq<char>>,
    row: Seq<Seq<char>>,
    ci: int,
    gb: Option<Seq<Seq<char>>>,
    m: Seq<(Seq<char>, Num)>,
) -> bool {
    if row.len() > ci {
        match parse_num_spec(row[ci]) {
            Some(v) => upsert_fits(m, row_key(headers, row, gb), v),
            None => true,
        }
    } else {
        true
    }
}

/// Every addition of the rows fold from `r` on stays in range.
pub open spec fn rows_fits(
    g: GridV,
    ci: int,
    gb: Option<Seq<Seq<char>>>,
    m: Seq<(Seq<char>, Num)>,
    r: int,
) -> bool
    decreases g.len() - r,
{
    if 1 <= r < g.len() {
        row_step_fits(g[0], g[r], ci, gb, m) && rows_fits(
            g,
            ci,
            gb,
            sum_row_step(g[0], g[r], ci, gb, m),
            r + 1,
        )
    } else {
        true
    }
}

/// Every addition of one dataset's fold stays in range.
pub open spec fn file_step_fits(
    store: Seq<GridV>,
    idx: int,
    col: Seq<char>,
    gb: Option<Seq<Seq<char>>>,
    m: Seq<(Seq<char>, Num)>,
) -> bool {
    if 0 <= idx < store.len() {
        let g = store[idx];
        if g.len() > 0 {
            match header_index_spec(g[0], col) {
                Some(ci) => rows_fits(g, ci, gb, m, 1),
                None => true,
            }
        } else {
            true
        }
    } else {
        true
    }
}

/// Every addition of the files fold from `s` on stays in range.
pub open spec fn files_fits(
    sel: Seq<usize>,
    store: Seq<GridV>,
    col: Seq<char>,
    gb: Option<Seq<Seq<char>>>,
    m: Seq<(Seq<char>, Num)>,
    s: int,
) -> bool
    decreases sel.len() - s,
{
    if 0 <= s < sel.len() {
        file_step_fits(store, sel[s] as int, col, gb, m) && files_fits(
            sel,
            store,
            col,
            gb,
            sum_file_step(store, sel[s] as int, col, gb, m),
            s + 1,
        )
    } else {
        true
    }
}

/// Every addition of the collapsing scalar fold stays in range.
pub open spec fn scalar_fits(m: Seq<(Seq<char>, Num)>, acc: Num, j: int) -> bool
    decreases m.len() - j,
{
    if 0 <= j < m.len() {
        crate::num::sum_fits(acc, m[j].1) && scalar_fits(m, sum_or_keep(acc, m[j].1), j + 1)
    } else {
        true
    }
}

/// Every addition performed in computing the `CSUM` scalar stays in range.
pub open spec fn csum_in_range(
    sel: Seq<usize>,
    store: Seq<GridV>,
    col: Seq<char>,
    gb: Option<Seq<Seq<char>>>,
) -> bool {
    &&& files_fits(sel, store, col, gb, Seq::empty(), 0)
    &&& scalar_fits(col_sum_spec(sel, store, col, gb), Num { num: 0, den: 1 }, 0)
}

/// The rational value of the per-key sums: their exact total.
pub open spec fn entries_value(m: Seq<(Seq<char>, Num)>) -> Rat {
    rsum(m, Rat { n: 0, d: 1 }, 0)
}

/// An in-range upsert adds the value to the exact total.
proof fn lemma_upsert_value(m: Seq<(Seq<char>, Num)>, key: Seq<char>, v: Num)
    requires
        upsert_fits(m, key, v),
    ensures
        entries_value(sum_upsert(m, key, v)) == rat_add(entries_value(m), rat_of(v)),
        sum_upsert(m, key, v).len() >= 1,
        sum_upsert(m, key, v).len() >= m.len(),
    decreases m.len(),
{
    lemma_find_key_valid(m, key);
    match find_key(m, key) {
        Some(i) => {
            lemma_add_exact(m[i].1, v);
            lemma_rsum_update(
                m,
                i,
                (m[i].0, sum_or_keep(m[i].1, v)),
                v,
                Rat { n: 0, d: 1 },
                0,
            );
        },
        None => {
            lemma_rsum_push(m, (key, v), Rat { n: 0, d: 1 }, 0);
        },
    }
}

/// The relation the two folds keep: equal exact totals, and emptiness in
/// step.
spec fn paired(m1: Seq<(Seq<char>, Num)>, m2: Seq<(Seq<char>, Num)>) -> bool {
    &&& entries_value(m1) == entries_value(m2)
    &&& (m1.len() == 0 <==> m2.len() == 0)
}

/// One row contributes the same value to the fold whatever the grouping.
proof fn lemma_paired_row(
    headers: Seq<Seq<char>>,
    row: Seq<Seq<char>>,
    ci: int,
    gb1: Option<Seq<Seq<char>>>,
    gb2: Option<Seq<Seq<char>>>,
    m1: Seq<(Seq<char>, Num)>,
    m2: Seq<(Seq<char>, Num)>,
)
    requires
        paired(m1, m2),
        row_step_fits(headers, row, ci, gb1, m1),
        row_step_fits(headers, row, ci, gb2, m2),
    ensures
        paired(sum_row_step(headers, row, ci, gb1, m1), sum_row_step(headers, row, ci, gb2, m2)),
{
    if row.len() > ci {
        match parse_num_spec(row[ci]) {
            Some(v) => {
                lemma_upsert_value(m1, row_key(headers, row, gb1), v);
                lemma_upsert_value(m2, row_key(headers, row, gb2), v);
            },
            None => {
            },
        }
    }
}

/// The rows fold keeps the pairing whatever the grouping.
proof fn lemma_paired_rows(
    g: GridV,
    ci: int,
    gb1: Option<Seq<Seq<char>>>,
    gb2: Option<Seq<Seq<char>>>,
    m1: Seq<(Seq<char>, Num)>,
    m2: Seq<(Seq<char>, Num)>,
    r: int,
)
    requires
        paired(m1, m2),
        rows_fits(g, ci, gb1, m1, r),
        rows_fits(g, ci, gb2, m2, r),
    ensures
        paired(sum_rows(g, ci, gb1, m1, r), sum_rows(g, ci, gb2, m2, r)),
    decreases g.len() - r,
{
    if 1 <= r < g.len() {
        lemma_paired_row(g[0], g[r], ci, gb1, gb2, m1, m2);
        lemma_paired_rows(
            g,
            ci,
            gb1,
            gb2,
            sum_row_step(g[0], g[r], ci, gb1, m1),
            sum_row_step(g[0], g[r], ci, gb2, m2),
            r + 1,
        );
    }
}

/// The files fold keeps the pairing whatever the grouping.
proof fn lemma_paired_files(
    sel: Seq<usize>,
    store: Seq<GridV>,
    col: Seq<char>,
    gb1: Option<Seq<Seq<char>>>,
    gb2: Option<Seq<Seq<char>>>,
    m1: Seq<(Seq<char>, Num)>,
    m2: Seq<(Seq<char>, Num)>,
    s: int,
)
    requires
        paired(m1, m2),
        files_fits(sel, store, col, gb1, m1, s),
        files_fits(sel, store, col, gb2, m2, s),
    ensures
        paired(sum_files(sel, store, col, gb1, m1, s), sum_files(sel, store, col, gb2, m2, s)),
    decreases sel.len() - s,
{
    if 0 <= s < sel.len() {
        let idx = sel[s] as int;
        if 0 <= idx < store.len() && store[idx].len() > 0 && header_index_spec(
            store[idx][0],
            col,
        ) is Some {
            lemma_paired_rows(
                store[idx],
                header_index_spec(store[idx][0], col)->Some_0,
                gb1,
                gb2,
                m1,
                m2,
                1,
            );
        }
        lemma_paired_files(
            sel,
            store,
            col,
            gb1,
            gb2,
            sum_file_step(store, idx, col, gb1, m1),
            sum_file_step(store, idx, col, gb2, m2),
            s + 1,
        );
    }
}

/// When its additions stay in range, the collapsing fold computes the
/// exact rational total of the entries.
proof fn lemma_scalar_value(m: Seq<(Seq<char>, Num)>, acc: Num, j: int)
    requires
        scalar_fits(m, acc, j),
    ensures
        rat_of(sum_values_from(m, acc, j)) == rsum(m, rat_of(acc), j),
    decreases m.len() - j,
{
    if 0 <= j < m.len() {
        lemma_add_exact(acc, m[j].1);
        lemma_scalar_value(m, sum_or_keep(acc, m[j].1), j + 1);
    }
}

/// One row's contribution to the exact rational total of a column.
pub open spec fn cells_row_step(row: Seq<Seq<char>>, ci: int, acc: Rat) -> Rat {
    if row.len() > ci {
        match parse_num_spec(row[ci]) {
            Some(v) => rat_add(acc, rat_of(v)),
            None => acc,
        }
    } else {
        acc
    }
}

/// The exact rational total over the data rows of `g` from `r` on.
pub open spec fn cells_rows(g: GridV, ci: int, acc: Rat, r: int) -> Rat
    decreases g.len() - r,
{
    if 1 <= r < g.len() {
        cells_rows(g, ci, cells_row_step(g[r], ci, acc), r + 1)
    } else {
        acc
    }
}

/// One selected dataset's contribution to the exact rational total.
pub open spec fn cells_file_step(store: Seq<GridV>, idx: int, col: Seq<char>, acc: Rat) -> Rat {
    if 0 <= idx < store.len() {
        let g = store[idx];
        if g.len() > 0 {
            match header_index_spec(g[0], col) {
                Some(ci) => cells_rows(g, ci, acc, 1),
                None => acc,
            }
        } else {
            acc
        }
    } else {
        acc
    }
}

/// The exact rational total over the selected datasets from `s` on.
pub open spec fn cells_files(sel: Seq<usize>, store: Seq<GridV>, col: Seq<char>, acc: Rat, s: int) -> Rat
    decreases sel.len() - s,
{
    if 0 <= s < sel.len() {
        cells_files(sel, store, col, cells_file_step(store, sel[s] as int, col, acc), s + 1)
    } else {
        acc
    }
}

/// The arithmetic sum, as an unbounded rational, of the parsed values of
/// `col` over every data row of every selected dataset.
pub open spec fn cells_total(sel: Seq<usize>, store: Seq<GridV>, col: Seq<char>) -> Rat {
    cells_files(sel, store, col, Rat { n: 0, d: 1 }, 0)
}

/// An in-range row step adds the row's exact contribution to the total.
proof fn lemma_value_row(
    headers: Seq<Seq<char>>,
    row: Seq<Seq<char>>,
    ci: int,
    gb: Option<Seq<Seq<char>>>,
    m: Seq<(Seq<char>, Num)>,
)
    requires
        row_step_fits(headers, row, ci, gb, m),
    ensures
        entries_value(sum_row_step(headers, row, ci, gb, m)) == cells_row_step(
            row,
            ci,
            entries_value(m),
        ),
{
    if row.len() > ci {
        match parse_num_spec(row[ci]) {
            Some(v) => {
                lemma_upsert_value(m, row_key(headers, row, gb), v);
            },
            None => {
            },
        }
    }
}

/// The rows fold tracks the exact rational total.
proof fn lemma_value_rows(g: GridV, ci: int, gb: Option<Seq<Seq<char>>>, m: Seq<(Seq<char>, Num)>, r: int)
    requires
        rows_fits(g, ci, gb, m, r),
    ensures
        entries_value(sum_rows(g, ci, gb, m, r)) == cells_rows(g, ci, entries_value(m), r),
    decreases g.len() - r,
{
    if 1 <= r < g.len() {
        lemma_value_row(g[0], g[r], ci, gb, m);
        lemma_value_rows(g, ci, gb, sum_row_step(g[0], g[r], ci, gb, m), r + 1);
    }
}

/// The files fold tracks the exact rational total.
proof fn lemma_value_files(
    sel: Seq<usize>,
    store: Seq<GridV>,
    col: Seq<char>,
    gb: Option<Seq<Seq<char>>>,
    m: Seq<(Seq<char>, Num)>,
    s: int,
)
    requires
        files_fits(sel, store, col, gb, m, s),
    ensures
        entries_value(sum_files(sel, store, col, gb, m, s)) == cells_files(
            sel,
            store,
            col,
            entries_value(m),
            s,
        ),
    decreases sel.len() - s,
{
    if 0 <= s < sel.len() {
        let idx = sel[s] as int;
        if 0 <= idx < store.len() && store[idx].len() > 0 && header_index_spec(
            store[idx][0],
            col,
        ) is Some {
            lemma_value_rows(store[idx], header_index_spec(store[idx][0], col)->Some_0, gb, m, 1);
        }
        lemma_value_files(sel, store, col, gb, sum_file_step(store, idx, col, gb, m), s + 1);
    }
}

/// The scalar of `CSUM` denotes exactly the arithmetic sum of the parsed
/// values of the column over every data row of every selected dataset,
/// whatever grouping is active, provided every addition performed stays in
/// the machine range.
pub proof fn lemma_csum_exact(
    sel: Seq<usize>,
    store: Seq<GridV>,
    col: Seq<char>,
    gb: Option<Seq<Seq<char>>>,
)
    requires
        csum_in_range(sel, store, col, gb),
    ensures
        rat_of(csum_scalar(col_sum_spec(sel, store, col, gb))) == cells_total(sel, store, col),
{
    lemma_value_files(sel, store, col, gb, Seq::empty(), 0);
    let m = col_sum_spec(sel, store, col, gb);
    lemma_scalar_value(m, Num { num: 0, den: 1 }, 0);
    assert(entries_value(Seq::<(Seq<char>, Num)>::empty()) == (Rat { n: 0, d: 1 }));
    assert(rat_of(Num { num: 0, den: 1 }) == (Rat { n: 0, d: 1 }));
}

/// Grouping invariance of `CSUM`: with every addition in range, grouping
/// by any columns yields exactly the same scalar as no grouping, because
/// the per-group sums are summed back together.
pub proof fn lemma_csum_grouping_invariant(
    sel: Seq<usize>,
    store: Seq<GridV>,
    col: Seq<char>,
    g: Seq<Seq<char>>,
)
    requires
        csum_in_range(sel, store, col, Some(g)),
        csum_in_range(sel, store, col, None),
    ensures
        csum_scalar(col_sum_spec(sel, store, col, Some(g))) == csum_scalar(
            col_sum_spec(sel, store, col, None),
        ),
{
    lemma_paired_files(sel, store, col, Some(g), None, Seq::empty(), Seq::empty(), 0);
    let m1 = col_sum_spec(sel, store, col, Some(g));
    let m2 = col_sum_spec(sel, store, col, None);
    lemma_scalar_value(m1, Num { num: 0, den: 1 }, 0);
    lemma_scalar_value(m2, Num { num: 0, den: 1 }, 0);
    let s1 = csum_scalar(m1);
    let s2 = csum_scalar(m2);
    assert(rat_of(s1) == rat_of(s2));
    assert(s1.num as int == s2.num as int && s1.den as int == s2.den as int);
    assert(s1 == s2);
}

/// The multiplying fold over at most one entry yields that entry's value
/// (or one, for no entries).
proof fn lemma_cmul_single(m: Seq<(Seq<char>, Num)>)
    requires
        m.len() <= 1,
    ensures
        m.len() == 0 ==> crate::eval::cmul_product(m) == (Num { num: 1, den: 1 }),
        m.len() == 1 ==> crate::eval::cmul_product(m) == m[0].1,
{
    let one = Num { num: 1, den: 1 };
    if m.len() == 1 {
        let e = m[0].1;
        assert(crate::num::prod_num_v(one, e) == 1int * (e.num as int));
        assert(crate::num::prod_den_v(one, e) == 1int * (e.den as int));
        assert(crate::num::prod_num_v(one, e) == e.num as int);
        assert(crate::num::prod_den_v(one, e) == e.den as int);
        assert(crate::num::prod_fits(one, e));
        assert(crate::num::prod_or_keep(one, e) == e);
        assert(crate::eval::cmul_product(m) == crate::eval::prod_values_from(
            m,
            crate::num::prod_or_keep(one, m[0].1),
            1,
        ));
        assert(crate::eval::prod_values_from(m, e, 1) == e);
    }
}

/// Grouping invariance of `CMUL` on inputs where the grouping produces at
/// most one key: the factor equals the ungrouped one. (With two or more
/// keys `CMUL` multiplies the per-group sums, and the law does not hold.)
pub proof fn lemma_cmul_grouping_single_key(
    sel: Seq<usize>,
    store: Seq<GridV>,
    col: Seq<char>,
    g: Seq<Seq<char>>,
)
    requires
        csum_in_range(sel, store, col, Some(g)),
        csum_in_range(sel, store, col, None),
        col_sum_spec(sel, store, col, Some(g)).len() <= 1,
    ensures
        crate::eval::cmul_product(col_sum_spec(sel, store, col, Some(g)))
            == crate::eval::cmul_product(col_sum_spec(sel, store, col, None)),
{
    lemma_paired_files(sel, store, col, Some(g), None, Seq::empty(), Seq::empty(), 0);
    let m1 = col_sum_spec(sel, store, col, Some(g));
    let m2 = col_sum_spec(sel, store, col, None);
    lemma_ungrouped_files(sel, store, col, Seq::empty(), Num { num: 0, den: 1 }, 0);
    lemma_cmul_single(m1);
    lemma_cmul_single(m2);
    if m1.len() == 1 {
        assert(m2.len() == 1);
        let r1 = rat_of(m1[0].1);
        let r2 = rat_of(m2[0].1);
        assert(entries_value(m1) == rsum(m1, rat_add(Rat { n: 0, d: 1 }, r1), 1));
        assert(rsum(m1, rat_add(Rat { n: 0, d: 1 }, r1), 1) == rat_add(Rat { n: 0, d: 1 }, r1));
        assert(entries_value(m2) == rsum(m2, rat_add(Rat { n: 0, d: 1 }, r2), 1));
        assert(rsum(m2, rat_add(Rat { n: 0, d: 1 }, r2), 1) == rat_add(Rat { n: 0, d: 1 }, r2));
        assert(rat_add(Rat { n: 0, d: 1 }, r1) == (Rat { n: r1.n, d: r1.d }))
            by (nonlinear_arith);
        assert(rat_add(Rat { n: 0, d: 1 }, r2) == (Rat { n: r2.n, d: r2.d }))
            by (nonlinear_arith);
        assert(r1 == r2);
        assert(m1[0].1 == m2[0].1);
    }
}

/// A grouped count over a selection of one dataset that has the counted
/// column but no data rows is a table holding only the header row
/// `[column, "count"]`.
pub proof fn lemma_ccount_no_rows(sel: Seq<usize>, store: Seq<GridV>, col: Seq<char>, i: usize)
    requires
        sel =~= seq![i],
        0 <= (i as int) < store.len(),
        store[i as int].len() == 1,
        header_index_spec(store[i as int][0], col) is Some,
    ensures
        col_count_spec(sel, store, col, None) =~= seq![seq![col, "count"@]],
{
    let g = store[i as int];
    let ci = header_index_spec(g[0], col)->Some_0;
    assert(cnt_rows(g, ci, None, Seq::empty(), 1) =~= Seq::<(Seq<char>, u64)>::empty());
    assert(count_table_rows(Seq::empty()) =~= Seq::<Seq<Seq<char>>>::empty());
    assert(count_header(None, col) =~= seq![col, "count"@]);
    assert(sel[0] == i);
    assert(cnt_file_step(store, i as int, col, None, Seq::empty()) =~= seq![seq![col, "count"@]]);
    assert(col_count_spec(sel, store, col, None) == cnt_files(
        sel,
        store,
        col,
        None,
        cnt_file_step(store, sel[0] as int, col, None, Seq::empty()),
        1,
    ));
    assert(col_count_spec(sel, store, col, None) =~= seq![seq![col, "count"@]]);
}

/// A `MUL` reached without two numbers on top of the stack stops the scan:
/// the result sequence is exactly what was accumulated before it, and when
/// anything had been accumulated, the finalized results are unchanged too.
pub proof fn lemma_mul_underflow(
    t: Seq<Seq<char>>,
    sel: Seq<usize>,
    store: Seq<crate::aggregate::GridV>,
    i: int,
    st: EvalStateV,
)
    requires
        0 <= i < t.len(),
        t[i] == "MUL"@,
        !(st.stack.len() >= 2 && st.stack.last() is Number && st.stack[st.stack.len() - 2]
            is Number),
    ensures
        eval_at(t, sel, store, i, st).results == st.results,
        st.results.len() > 0 ==> finalize(eval_at(t, sel, store, i, st)) == st.results,
{
    reveal_strlit("GRP");
    reveal_strlit("CSUM");
    reveal_strlit("CCOUNT");
    reveal_strlit("CAVG");
    reveal_strlit("CMUL");
    reveal_strlit("MUL");
    assert("MUL"@[0] == 'M');
    assert("GRP"@[0] == 'G');
    assert("CSUM"@[0] == 'C');
    assert("CCOUNT"@[0] == 'C');
    assert("CAVG"@[0] == 'C');
    assert("CMUL"@[0] == 'C');
    assert(t[i] != "GRP"@);
    assert(t[i] != "CSUM"@);
    assert(t[i] != "CCOUNT"@);
    assert(t[i] != "CAVG"@);
    assert(t[i] != "CMUL"@);
}

/// The reference to literal-keyword facts used by the pipeline-level laws.
proof fn lemma_keyword_literals()
    ensures
        is_keyword("CSUM"@),
        !("CSUM"@ == "GRP"@),
        !("CSUM"@ == "CMUL"@),
{
    reveal_strlit("GRP");
    reveal_strlit("CSUM");
    reveal_strlit("CMUL");
    assert("GRP"@.len() == 3);
    assert("CSUM"@.len() == 4);
    assert("CSUM"@[1] == 'S');
    assert("CMUL"@[1] == 'M');
}

/// A `GRP` capture over non-keyword tokens captures them all and resumes
/// at the keyword that follows.
proof fn lemma_grp_captures(
    t: Seq<Seq<char>>,
    sel: Seq<usize>,
    store: Seq<GridV>,
    g: Seq<Seq<char>>,
    col: Seq<char>,
    j: int,
    st: EvalStateV,
)
    requires
        t == seq!["GRP"@] + g + seq!["CSUM"@, col],
        forall|k: int| 0 <= k < g.len() ==> !is_keyword(#[trigger] g[k]),
        0 <= j <= g.len(),
        st.capture == g.take(j),
    ensures
        grp_scan(t, sel, store, j, st) == eval_at(
            t,
            sel,
            store,
            g.len() as int + 1,
            EvalStateV { stack: st.stack, results: st.results, capture: g },
        ),
    decreases g.len() - j,
{
    lemma_keyword_literals();
    assert(t.len() == g.len() + 3);
    if j < g.len() {
        assert(t[j + 1] == g[j]);
        assert(!is_keyword(t[j + 1]));
        let st2 = EvalStateV {
            stack: st.stack,
            results: st.results,
            capture: st.capture.push(t[j + 1]),
        };
        assert(st2.capture =~= g.take(j + 1));
        lemma_grp_captures(t, sel, store, g, col, j + 1, st2);
    } else {
        assert(t[j + 1] == "CSUM"@);
        assert(is_keyword(t[j + 1]));
        assert(st.capture =~= g);
    }
}

/// Evaluating the two-token pipeline `CSUM col` yields one Number: the
/// collapsed ungrouped column sum.
proof fn lemma_pipeline_csum(sel: Seq<usize>, store: Seq<GridV>, col: Seq<char>)
    ensures
        eval_pipeline_spec(seq!["CSUM"@, col], sel, store) == seq![
            ValueV::Number(csum_scalar(col_sum_spec(sel, store, col, None))),
        ],
{
    lemma_keyword_literals();
    let t = seq!["CSUM"@, col];
    let v = ValueV::Number(csum_scalar(col_sum_spec(sel, store, col, None)));
    assert(t[0] == "CSUM"@);
    assert(t[1] == col);
    assert(cap_opt(empty_state().capture) is None);
    let st1 = EvalStateV {
        stack: empty_state().stack.push(v),
        results: empty_state().results.push(v),
        capture: empty_state().capture,
    };
    assert(eval_at(t, sel, store, 0, empty_state()) == eval_at(t, sel, store, 2, st1));
    assert(eval_at(t, sel, store, 2, st1) == st1);
    assert(finalize(st1) =~= seq![v]);
}

/// Grouping invariance of `CSUM` at the pipeline level: for a non-empty
/// group-by set of non-keyword column names, `GRP <G> CSUM C` evaluates to
/// exactly the same single Number as `CSUM C`, provided every addition
/// performed stays in the machine range.
pub proof fn lemma_pipeline_grouping_invariant(
    sel: Seq<usize>,
    store: Seq<GridV>,
    col: Seq<char>,
    g: Seq<Seq<char>>,
)
    requires
        g.len() > 0,
        forall|k: int| 0 <= k < g.len() ==> !is_keyword(#[trigger] g[k]),
        csum_in_range(sel, store, col, Some(g)),
        csum_in_range(sel, store, col, None),
    ensures
        eval_pipeline_spec(seq!["GRP"@] + g + seq!["CSUM"@, col], sel, store)
            == eval_pipeline_spec(seq!["CSUM"@, col], sel, store),
{
    lemma_keyword_literals();
    let t = seq!["GRP"@] + g + seq!["CSUM"@, col];
    assert(t.len() == g.len() + 3);
    assert(t[0] == "GRP"@);
    assert(eval_at(t, sel, store, 0, empty_state()) == grp_scan(t, sel, store, 0, empty_state()));
    assert(empty_state().capture =~= g.take(0));
    lemma_grp_captures(t, sel, store, g, col, 0, empty_state());
    let stc = EvalStateV {
        stack: empty_state().stack,
        results: empty_state().results,
        capture: g,
    };
    let i = g.len() as int + 1;
    assert(t[i] == "CSUM"@);
    assert(t[i + 1] == col);
    assert(cap_opt(g) == Some(g));
    let v = ValueV::Number(csum_scalar(col_sum_spec(sel, store, col, Some(g))));
    let st1 = EvalStateV {
        stack: stc.stack.push(v),
        results: stc.results.push(v),
        capture: g,
    };
    assert(eval_at(t, sel, store, i, stc) == eval_at(t, sel, store, i + 2, st1));
    assert(eval_at(t, sel, store, i + 2, st1) == st1);
    assert(finalize(st1) =~= seq![v]);
    lemma_csum_grouping_invariant(sel, store, col, g);
    lemma_pipeline_csum(sel, store, col);
}

/// `CCOUNT` at the pipeline level over a selection of one dataset that has
/// the counted column but no data rows: the single result is a Table
/// holding only the header row `[column, "count"]`.
pub proof fn lemma_pipeline_ccount_no_rows(
    sel: Seq<usize>,
    store: Seq<GridV>,
    col: Seq<char>,
    i: usize,
)
    requires
        sel =~= seq![i],
        0 <= (i as int) < store.len(),
        store[i as int].len() == 1,
        header_index_spec(store[i as int][0], col) is Some,
    ensures
        eval_pipeline_spec(seq!["CCOUNT"@, col], sel, store) == seq![
            ValueV::QueryResult(seq![seq![col, "count"@]]),
        ],
{
    reveal_strlit("GRP");
    reveal_strlit("CSUM");
    reveal_strlit("CCOUNT");
    reveal_strlit("CAVG");
    reveal_strlit("CMUL");
    assert("GRP"@.len() == 3);
    assert("CSUM"@.len() == 4);
    assert("CCOUNT"@.len() == 6);
    assert("CAVG"@.len() == 4);
    assert("CMUL"@.len() == 4);
    let t = seq!["CCOUNT"@, col];
    assert(t[0] == "CCOUNT"@);
    assert(t[1] == col);
    assert(cap_opt(empty_state().capture) is None);
    let v = ValueV::QueryResult(col_count_spec(sel, store, col, None));
    let st1 = EvalStateV {
        stack: empty_state().stack.push(v),
        results: empty_state().results.push(v),
        capture: empty_state().capture,
    };
    assert(eval_at(t, sel, store, 0, empty_state()) == eval_at(t, sel, store, 2, st1));
    assert(eval_at(t, sel, store, 2, st1) == st1);
    assert(finalize(st1) =~= seq![v]);
    lemma_ccount_no_rows(sel, store, col, i);
    assert(col_count_spec(sel, store, col, None) == seq![seq![col, "count"@]]);
}

} // verus!
