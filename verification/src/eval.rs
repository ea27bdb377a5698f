//! The pipeline evaluator: scans a token stream left to right against a
//! store and a selection, keeping an operand stack and a result sequence.
//!
//! The interpreter below (`eval_at` and its companions) is the evaluator's
//! specification: `process_csvqb_pipeline` is proved to compute exactly its
//! finalized result sequence.

use vstd::prelude::*;
use crate::aggregate::{
    GridV, col_average_spec, col_count_spec, col_sum_spec, col_average, col_count, col_sum,
    entries_wf, opt_groups, store_grids,
};
use crate::grid::CsvGrid;
use crate::num::{Num, parse_num_spec, parse_number, prod_or_keep, sum_or_keep, div_by_count};
use crate::strings::str_eq;
use crate::value::{Value, ValueV, clone_value, value_wf, values_wf};

verus! {

/// The call-local state of one evaluation pass.
pub ghost struct EvalStateV {
    pub stack: Seq<ValueV>,
    pub results: Seq<ValueV>,
    pub capture: Seq<Seq<char>>,
}

/// The state a pass starts from.
pub open spec fn empty_state() -> EvalStateV {
    EvalStateV { stack: Seq::empty(), results: Seq::empty(), capture: Seq::empty() }
}

/// The state assembled from its three parts.
pub open spec fn st_of(
    stack: Seq<ValueV>,
    results: Seq<ValueV>,
    capture: Seq<Seq<char>>,
) -> EvalStateV {
    EvalStateV { stack, results, capture }
}

/// The termination rule: a pass whose result sequence is empty but whose
/// stack is not surfaces the top of the stack.
pub open spec fn finalize(st: EvalStateV) -> Seq<ValueV> {
    if st.results.len() == 0 && st.stack.len() > 0 {
        st.results.push(st.stack.last())
    } else {
        st.results
    }
}

/// The recognized keyword operators that stop a `GRP` capture.
pub open spec fn is_keyword(t: Seq<char>) -> bool {
    ||| t == "GRP"@
    ||| t == "CSUM"@
    ||| t == "CCOUNT"@
    ||| t == "CAVG"@
    ||| t == "CMUL"@
    ||| t == "MUL"@
    ||| t == "="@
    ||| t == "<"@
    ||| t == ">"@
}

/// The capture group handed to an aggregation: the captured columns when
/// any were captured, no grouping otherwise.
pub open spec fn cap_opt(c: Seq<Seq<char>>) -> Option<Seq<Seq<char>>> {
    if c.len() > 0 {
        Some(c)
    } else {
        None
    }
}

/// The per-key values of `m` from position `j` on, added onto `acc`.
pub open spec fn sum_values_from(m: Seq<(Seq<char>, Num)>, acc: Num, j: int) -> Num
    decreases m.len() - j,
{
    if 0 <= j < m.len() {
        sum_values_from(m, sum_or_keep(acc, m[j].1), j + 1)
    } else {
        acc
    }
}

/// The per-key values of `m` from position `j` on, multiplied onto `acc`.
pub open spec fn prod_values_from(m: Seq<(Seq<char>, Num)>, acc: Num, j: int) -> Num
    decreases m.len() - j,
{
    if 0 <= j < m.len() {
        prod_values_from(m, prod_or_keep(acc, m[j].1), j + 1)
    } else {
        acc
    }
}

/// The scalar a `CSUM` produces: the sum of all per-key sums.
pub open spec fn csum_scalar(m: Seq<(Seq<char>, Num)>) -> Num {
    sum_values_from(m, Num { num: 0, den: 1 }, 0)
}

/// The factor a `CMUL` produces: the product of all per-key sums.
pub open spec fn cmul_product(m: Seq<(Seq<char>, Num)>) -> Num {
    prod_values_from(m, Num { num: 1, den: 1 }, 0)
}

/// The scalar a `CAVG` produces: the mean of the per-key averages, or zero
/// when there are no keys.
pub open spec fn cavg_scalar(m: Seq<(Seq<char>, Num)>) -> Num {
    if m.len() > 0 {
        div_by_count(sum_values_from(m, Num { num: 0, den: 1 }, 0), m.len() as u64)
    } else {
        Num { num: 0, den: 1 }
    }
}

/// A `GRP` capture in progress at position `j`: following tokens are
/// captured until a keyword or the end of the stream, and the scan resumes
/// after the last captured token.
pub open spec fn grp_scan(
    t: Seq<Seq<char>>,
    sel: Seq<usize>,
    store: Seq<GridV>,
    j: int,
    st: EvalStateV,
) -> EvalStateV
    decreases t.len() - j, 0int,
{
    if j + 1 < t.len() && !is_keyword(t[j + 1]) {
        grp_scan(
            t,
            sel,
            store,
            j + 1,
            EvalStateV {
                stack: st.stack,
                results: st.results,
                capture: st.capture.push(t[j + 1]),
            },
        )
    } else if j < t.len() {
        eval_at(t, sel, store, j + 1, st)
    } else {
        st
    }
}

/// A sub-expression scan in progress at position `j`: shrinking suffixes
/// starting one past `j` are evaluated until one yields a non-empty result
/// (whose first value is appended to the results) or a closing parenthesis
/// or the end of the stream is reached; the scan then resumes one past `j`.
pub open spec fn paren_scan(
    t: Seq<Seq<char>>,
    sel: Seq<usize>,
    store: Seq<GridV>,
    j: int,
    st: EvalStateV,
) -> EvalStateV
    decreases t.len() - j, 0int,
{
    if j >= t.len() {
        st
    } else if t[j] == ")"@ {
        eval_at(t, sel, store, j + 1, st)
    } else {
        let sub = finalize(eval_at(t, sel, store, j + 1, empty_state()));
        if sub.len() > 0 {
            eval_at(
                t,
                sel,
                store,
                j + 1,
                EvalStateV {
                    stack: st.stack,
                    results: st.results.push(sub[0]),
                    capture: st.capture,
                },
            )
        } else {
            paren_scan(t, sel, store, j + 1, st)
        }
    }
}

/// One evaluation pass from position `i` in state `st`: the state after the
/// scan stops, by the per-token rules of the grammar.
pub open spec fn eval_at(
    t: Seq<Seq<char>>,
    sel: Seq<usize>,
    store: Seq<GridV>,
    i: int,
    st: EvalStateV,
) -> EvalStateV
    decreases t.len() - i, 1int,
{
    if i >= t.len() {
        st
    } else {
        let tok = t[i];
        if tok == "GRP"@ {
            grp_scan(t, sel, store, i, st)
        } else if tok == "CSUM"@ || tok == "CCOUNT"@ || tok == "CAVG"@ || tok == "CMUL"@ {
            if i + 1 < t.len() {
                let field = t[i + 1];
                let gb = cap_opt(st.capture);
                let v = if tok == "CSUM"@ {
                    ValueV::Number(csum_scalar(col_sum_spec(sel, store, field, gb)))
                } else if tok == "CCOUNT"@ {
                    ValueV::QueryResult(col_count_spec(sel, store, field, gb))
                } else if tok == "CAVG"@ {
                    ValueV::Number(cavg_scalar(col_average_spec(sel, store, field, gb)))
                } else {
                    let p = cmul_product(col_sum_spec(sel, store, field, gb));
                    if st.stack.len() > 0 && st.stack.last() is Number {
                        ValueV::Number(prod_or_keep(st.stack.last()->Number_0, p))
                    } else {
                        ValueV::Number(p)
                    }
                };
                let popped = if tok == "CMUL"@ && st.stack.len() > 0 && st.stack.last() is Number {
                    st.stack.drop_last()
                } else {
                    st.stack
                };
                eval_at(
                    t,
                    sel,
                    store,
                    i + 2,
                    EvalStateV {
                        stack: popped.push(v),
                        results: st.results.push(v),
                        capture: st.capture,
                    },
                )
            } else {
                eval_at(t, sel, store, i + 1, st)
            }
        } else if tok == "MUL"@ {
            if st.stack.len() >= 2 {
                let right = st.stack.last();
                let left = st.stack[st.stack.len() - 2];
                let stack2 = st.stack.drop_last().drop_last();
                if right is Number && left is Number {
                    let v = ValueV::Number(prod_or_keep(left->Number_0, right->Number_0));
                    eval_at(
                        t,
                        sel,
                        store,
                        i + 1,
                        EvalStateV {
                            stack: stack2.push(v),
                            results: st.results.push(v),
                            capture: st.capture,
                        },
                    )
                } else {
                    EvalStateV { stack: stack2, results: st.results, capture: st.capture }
                }
            } else if st.stack.len() == 1 {
                EvalStateV { stack: st.stack.drop_last(), results: st.results, capture: st.capture }
            } else {
                st
            }
        } else if tok == ">"@ || tok == "<"@ || tok == "="@ {
            if st.stack.len() >= 2 {
                let right = st.stack.last();
                let left = st.stack[st.stack.len() - 2];
                let stack2 = st.stack.drop_last().drop_last();
                if right is Number && left is Number {
                    let b = if tok == ">"@ {
                        right->Number_0.rat_lt(left->Number_0)
                    } else if tok == "<"@ {
                        left->Number_0.rat_lt(right->Number_0)
                    } else {
                        left->Number_0.rat_eq(right->Number_0)
                    };
                    eval_at(
                        t,
                        sel,
                        store,
                        i + 1,
                        EvalStateV {
                            stack: stack2,
                            results: st.results.push(ValueV::Bool(b)),
                            capture: st.capture,
                        },
                    )
                } else {
                    eval_at(
                        t,
                        sel,
                        store,
                        i + 1,
                        EvalStateV { stack: stack2, results: st.results, capture: st.capture },
                    )
                }
            } else {
                eval_at(t, sel, store, i + 1, st)
            }
        } else if tok == "("@ {
            paren_scan(t, sel, store, i, st)
        } else if tok == ")"@ {
            eval_at(t, sel, store, i + 1, st)
        } else {
            match parse_num_spec(tok) {
                Some(n) => eval_at(
                    t,
                    sel,
                    store,
                    i + 1,
                    EvalStateV {
                        stack: st.stack.push(ValueV::Number(n)),
                        results: st.results,
                        capture: st.capture,
                    },
                ),
                None => eval_at(
                    t,
                    sel,
                    store,
                    i + 1,
                    EvalStateV {
                        stack: st.stack,
                        results: st.results.push(ValueV::Field(tok)),
                        capture: st.capture,
                    },
                ),
            }
        }
    }
}

/// Sums the per-key values of an aggregation result into one scalar.
fn collapse_sum(m: &Vec<(String, Num)>) -> (r: Num)
    requires
        entries_wf(m.deep_view()),
    ensures
        r == csum_scalar(m.deep_view()),
        r.wf(),
{
    let mut acc = Num::from_int(0);
    let n = m.len();
    let mut j: usize = 0;
    while j < n
        invariant
            j <= n,
            n == m@.len(),
            entries_wf(m.deep_view()),
            acc.wf(),
            csum_scalar(m.deep_view()) == sum_values_from(m.deep_view(), acc, j as int),
        decreases n - j,
    {
        let v = m[j].1;
        proof {
            assert(m.deep_view()[j as int].1 == v);
            assert(m.deep_view()[j as int].1.wf());
        }
        acc = acc.add_or_keep(v);
        j = j + 1;
    }
    acc
}

/// Multiplies the per-key values of an aggregation result into one factor.
fn collapse_prod(m: &Vec<(String, Num)>) -> (r: Num)
    requires
        entries_wf(m.deep_view()),
    ensures
        r == cmul_product(m.deep_view()),
        r.wf(),
{
    let mut acc = Num::from_int(1);
    let n = m.len();
    let mut j: usize = 0;
    while j < n
        invariant
            j <= n,
            n == m@.len(),
            entries_wf(m.deep_view()),
            acc.wf(),
            cmul_product(m.deep_view()) == prod_values_from(m.deep_view(), acc, j as int),
        decreases n - j,
    {
        let v = m[j].1;
        proof {
            assert(m.deep_view()[j as int].1 == v);
            assert(m.deep_view()[j as int].1.wf());
        }
        acc = acc.mul_or_keep(v);
        j = j + 1;
    }
    acc
}

/// Takes the mean of the per-key averages, or zero when there are none.
fn collapse_avg(m: &Vec<(String, Num)>) -> (r: Num)
    requires
        entries_wf(m.deep_view()),
    ensures
        r == cavg_scalar(m.deep_view()),
        r.wf(),
{
    if m.len() == 0 {
        return Num::from_int(0);
    }
    let s = collapse_sum(m);
    s.div_count(m.len() as u64)
}

/// What evaluating a whole pipeline yields: the finalized result sequence
/// of a pass over all tokens from a fresh state.
pub open spec fn eval_pipeline_spec(
    t: Seq<Seq<char>>,
    sel: Seq<usize>,
    store: Seq<GridV>,
) -> Seq<ValueV> {
    finalize(eval_at(t, sel, store, 0, empty_state()))
}

/// The capture group as an aggregation argument: the captured columns when
/// any were captured, no grouping otherwise.
fn group_arg<'a>(capture: &'a Vec<String>) -> (r: Option<&'a [String]>)
    ensures
        opt_groups(r) == cap_opt(capture.deep_view()),
{
    if capture.len() > 0 {
        let s = capture.as_slice();
        proof {
            assert(s.deep_view() =~= capture.deep_view());
        }
        Some(s)
    } else {
        None
    }
}

/// Whether a token is one of the keywords that stop a `GRP` capture.
fn is_keyword_tok(s: &str) -> (r: bool)
    ensures
        r == is_keyword(s@),
{
    str_eq(s, "GRP") || str_eq(s, "CSUM") || str_eq(s, "CCOUNT") || str_eq(s, "CAVG") || str_eq(
        s,
        "CMUL",
    ) || str_eq(s, "MUL") || str_eq(s, "=") || str_eq(s, "<") || str_eq(s, ">")
}

/// One evaluation pass over the tokens from position `start` to the end,
/// from a fresh state, yielding the finalized result sequence.
fn eval_from(
    qb_pipeline: &[String],
    file_indexes: &Vec<usize>,
    files: &Vec<(String, CsvGrid)>,
    start: usize,
) -> (res: Vec<Value>)
    requires
        start <= qb_pipeline@.len(),
    ensures
        res.deep_view() == finalize(
            eval_at(
                qb_pipeline.deep_view(),
                file_indexes@,
                store_grids(files@),
                start as int,
                empty_state(),
            ),
        ),
        values_wf(res.deep_view()),
    decreases qb_pipeline@.len() - start,
{
    let ghost t = qb_pipeline.deep_view();
    let ghost sel = file_indexes@;
    let ghost store = store_grids(files@);
    let len = qb_pipeline.len();
    let mut stack: Vec<Value> = Vec::new();
    let mut results: Vec<Value> = Vec::new();
    let mut capture: Vec<String> = Vec::new();
    let mut i = start;
    proof {
        assert(stack.deep_view() =~= Seq::<ValueV>::empty());
        assert(results.deep_view() =~= Seq::<ValueV>::empty());
        assert(capture.deep_view() =~= Seq::<Seq<char>>::empty());
    }
    while i < len
        invariant_except_break
            start <= i <= len,
            len == qb_pipeline@.len(),
            t == qb_pipeline.deep_view(),
            sel == file_indexes@,
            store == store_grids(files@),
            values_wf(stack.deep_view()),
            values_wf(results.deep_view()),
            eval_at(t, sel, store, start as int, empty_state()) == eval_at(
                t,
                sel,
                store,
                i as int,
                st_of(stack.deep_view(), results.deep_view(), capture.deep_view()),
            ),
        ensures
            values_wf(stack.deep_view()),
            values_wf(results.deep_view()),
            eval_at(t, sel, store, start as int, empty_state()) == st_of(
                stack.deep_view(),
                results.deep_view(),
                capture.deep_view(),
            ),
        decreases len - i,
    {
        let ghost st_cur = st_of(stack.deep_view(), results.deep_view(), capture.deep_view());
        let tok = &qb_pipeline[i];
        proof {
            assert(tok@ == t[i as int]);
        }
        if str_eq(tok.as_str(), "GRP") {
            let ghost i0 = i as int;
            proof {
                assert(eval_at(t, sel, store, i0, st_cur) == grp_scan(t, sel, store, i0, st_cur));
            }
            while i + 1 < len && !is_keyword_tok(qb_pipeline[i + 1].as_str())
                invariant
                    start <= i0 <= i < len,
                    len == qb_pipeline@.len(),
                    t == qb_pipeline.deep_view(),
                    sel == file_indexes@,
                    store == store_grids(files@),
                    values_wf(stack.deep_view()),
                    values_wf(results.deep_view()),
                    grp_scan(t, sel, store, i0, st_cur) == grp_scan(
                        t,
                        sel,
                        store,
                        i as int,
                        st_of(stack.deep_view(), results.deep_view(), capture.deep_view()),
                    ),
                decreases len - i,
            {
                let piece = qb_pipeline[i + 1].clone();
                proof {
                    assert(piece@ == t[i + 1]);
                }
                let ghost oldc = capture;
                let ghost pv = piece;
                capture.push(piece);
                proof {
                    crate::strings::lemma_deep_view_push(oldc, capture, pv);
                }
                i = i + 1;
            }
            proof {
                assert(grp_scan(t, sel, store, i as int, st_of(
                    stack.deep_view(),
                    results.deep_view(),
                    capture.deep_view(),
                )) == eval_at(t, sel, store, i + 1, st_of(
                    stack.deep_view(),
                    results.deep_view(),
                    capture.deep_view(),
                )));
            }
            i = i + 1;
        } else if str_eq(tok.as_str(), "CSUM") || str_eq(tok.as_str(), "CCOUNT") || str_eq(
            tok.as_str(),
            "CAVG",
        ) || str_eq(tok.as_str(), "CMUL") {
            if i + 1 < len {
                let field = qb_pipeline[i + 1].as_str();
                proof {
                    assert(field@ == t[i + 1]);
                }
                if str_eq(tok.as_str(), "CSUM") {
                    let m = col_sum(file_indexes, files, field, group_arg(&capture));
                    proof {
                        assert(m.deep_view() == col_sum_spec(
                            sel,
                            store,
                            t[i + 1],
                            cap_opt(capture.deep_view()),
                        ));
                    }
                    let sc = collapse_sum(&m);
                    let v = Value::Number(sc);
                    let ghost olds = stack;
                    let ghost oldr = results;
                    results.push(Value::Number(sc));
                    stack.push(v);
                    proof {
                        crate::strings::lemma_deep_view_push(oldr, results, Value::Number(sc));
                        crate::strings::lemma_deep_view_push(olds, stack, Value::Number(sc));
                        reveal_strlit("CSUM");
                        reveal_strlit("CMUL");
                        assert("CSUM"@[1] == 'S');
                        assert("CMUL"@[1] == 'M');
                        assert("CSUM"@ != "CMUL"@);
                        assert(eval_at(t, sel, store, i as int, st_cur) == eval_at(
                            t,
                            sel,
                            store,
                            i + 2,
                            st_of(stack.deep_view(), results.deep_view(), capture.deep_view()),
                        ));
                    }
                } else if str_eq(tok.as_str(), "CCOUNT") {
                    let table = col_count(file_indexes, files, field, group_arg(&capture));
                    let table2 = crate::value::clone_grid(&table);
                    let ghost olds = stack;
                    let ghost oldr = results;
                    let ghost rv = Value::QueryResult(table2);
                    results.push(Value::QueryResult(table2));
                    proof {
                        crate::strings::lemma_deep_view_push(oldr, results, rv);
                    }
                    let ghost sv = Value::QueryResult(table);
                    stack.push(Value::QueryResult(table));
                    proof {
                        crate::strings::lemma_deep_view_push(olds, stack, sv);
                        reveal_strlit("CCOUNT");
                        reveal_strlit("CMUL");
                        assert("CCOUNT"@.len() == 6);
                        assert("CMUL"@.len() == 4);
                        assert(eval_at(t, sel, store, i as int, st_cur) == eval_at(
                            t,
                            sel,
                            store,
                            i + 2,
                            st_of(stack.deep_view(), results.deep_view(), capture.deep_view()),
                        ));
                    }
                } else if str_eq(tok.as_str(), "CAVG") {
                    let m = col_average(file_indexes, files, field, group_arg(&capture));
                    let sc = collapse_avg(&m);
                    let ghost olds = stack;
                    let ghost oldr = results;
                    results.push(Value::Number(sc));
                    stack.push(Value::Number(sc));
                    proof {
                        crate::strings::lemma_deep_view_push(oldr, results, Value::Number(sc));
                        crate::strings::lemma_deep_view_push(olds, stack, Value::Number(sc));
                        reveal_strlit("CAVG");
                        reveal_strlit("CMUL");
                        assert("CAVG"@[1] == 'A');
                        assert("CMUL"@[1] == 'M');
                        assert("CAVG"@ != "CMUL"@);
                        assert(eval_at(t, sel, store, i as int, st_cur) == eval_at(
                            t,
                            sel,
                            store,
                            i + 2,
                            st_of(stack.deep_view(), results.deep_view(), capture.deep_view()),
                        ));
                    }
                } else {
                    let m = col_sum(file_indexes, files, field, group_arg(&capture));
                    let p = collapse_prod(&m);
                    let mut sc = p;
                    let mut popped = false;
                    if stack.len() > 0 {
                        let is_num = match &stack[stack.len() - 1] {
                            Value::Number(_) => true,
                            _ => false,
                        };
                        if is_num {
                            let ghost olds0 = stack;
                            let top = stack.pop();
                            proof {
                                crate::strings::lemma_deep_view_pop(olds0, stack);
                            }
                            match top {
                                Some(Value::Number(left)) => {
                                    proof {
                                        assert(olds0.deep_view().last() == ValueV::Number(left));
                                        assert(value_wf(olds0.deep_view().last()));
                                    }
                                    sc = left.mul_or_keep(p);
                                    popped = true;
                                },
                                _ => {
                                    proof {
                                        assert(false);
                                    }
                                },
                            }
                        }
                    }
                    let ghost olds = stack;
                    let ghost oldr = results;
                    results.push(Value::Number(sc));
                    stack.push(Value::Number(sc));
                    proof {
                        crate::strings::lemma_deep_view_push(oldr, results, Value::Number(sc));
                        crate::strings::lemma_deep_view_push(olds, stack, Value::Number(sc));
                        assert(eval_at(t, sel, store, i as int, st_cur) == eval_at(
                            t,
                            sel,
                            store,
                            i + 2,
                            st_of(stack.deep_view(), results.deep_view(), capture.deep_view()),
                        ));
                    }
                }
                proof {
                    assert(eval_at(t, sel, store, i as int, st_cur) == eval_at(
                        t,
                        sel,
                        store,
                        i + 2,
                        st_of(stack.deep_view(), results.deep_view(), capture.deep_view()),
                    ));
                }
                i = i + 2;
            } else {
                proof {
                    assert(eval_at(t, sel, store, i as int, st_cur) == eval_at(
                        t,
                        sel,
                        store,
                        i + 1,
                        st_cur,
                    ));
                }
                i = i + 1;
            }
        } else if str_eq(tok.as_str(), "MUL") {
            if stack.len() >= 2 {
                let both_nums = match (&stack[stack.len() - 1], &stack[stack.len() - 2]) {
                    (Value::Number(_), Value::Number(_)) => true,
                    _ => false,
                };
                let ghost olds0 = stack;
                let right = stack.pop();
                proof {
                    crate::strings::lemma_deep_view_pop(olds0, stack);
                }
                let ghost olds1 = stack;
                let left = stack.pop();
                proof {
                    crate::strings::lemma_deep_view_pop(olds1, stack);
                }
                if both_nums {
                    match (left, right) {
                        (Some(Value::Number(ln)), Some(Value::Number(rn))) => {
                            proof {
                                assert(olds0.deep_view().last() == ValueV::Number(rn));
                                assert(olds1.deep_view().last() == ValueV::Number(ln));
                                assert(value_wf(olds0.deep_view().last()));
                                assert(value_wf(olds1.deep_view().last()));
                            }
                            let v = ln.mul_or_keep(rn);
                            let ghost olds = stack;
                            let ghost oldr = results;
                            results.push(Value::Number(v));
                            stack.push(Value::Number(v));
                            proof {
                                crate::strings::lemma_deep_view_push(
                                    oldr,
                                    results,
                                    Value::Number(v),
                                );
                                crate::strings::lemma_deep_view_push(olds, stack, Value::Number(v));
                            }
                            proof {
                                assert(eval_at(t, sel, store, i as int, st_cur) == eval_at(
                                    t,
                                    sel,
                                    store,
                                    i + 1,
                                    st_of(
                                        stack.deep_view(),
                                        results.deep_view(),
                                        capture.deep_view(),
                                    ),
                                ));
                            }
                            i = i + 1;
                        },
                        _ => {
                            proof {
                                assert(false);
                            }
                        },
                    }
                } else {
                    proof {
                        assert(eval_at(t, sel, store, i as int, st_cur) == st_of(
                            stack.deep_view(),
                            results.deep_view(),
                            capture.deep_view(),
                        ));
                    }
                    break;
                }
            } else if stack.len() == 1 {
                let ghost olds0 = stack;
                let _ = stack.pop();
                proof {
                    crate::strings::lemma_deep_view_pop(olds0, stack);
                    assert(eval_at(t, sel, store, i as int, st_cur) == st_of(
                        stack.deep_view(),
                        results.deep_view(),
                        capture.deep_view(),
                    ));
                }
                break;
            } else {
                proof {
                    assert(eval_at(t, sel, store, i as int, st_cur) == st_cur);
                }
                break;
            }
        } else if str_eq(tok.as_str(), ">") || str_eq(tok.as_str(), "<") || str_eq(
            tok.as_str(),
            "=",
        ) {
            if stack.len() >= 2 {
                let ghost olds0 = stack;
                let right = stack.pop();
                proof {
                    crate::strings::lemma_deep_view_pop(olds0, stack);
                }
                let ghost olds1 = stack;
                let left = stack.pop();
                proof {
                    crate::strings::lemma_deep_view_pop(olds1, stack);
                }
                match (left, right) {
                    (Some(Value::Number(ln)), Some(Value::Number(rn))) => {
                        proof {
                            assert(olds0.deep_view().last() == ValueV::Number(rn));
                            assert(olds1.deep_view().last() == ValueV::Number(ln));
                            assert(value_wf(olds0.deep_view().last()));
                            assert(value_wf(olds1.deep_view().last()));
                        }
                        let b = if str_eq(tok.as_str(), ">") {
                            rn.lt(ln)
                        } else if str_eq(tok.as_str(), "<") {
                            ln.lt(rn)
                        } else {
                            ln.eq_rat(rn)
                        };
                        let ghost oldr = results;
                        results.push(Value::Bool(b));
                        proof {
                            crate::strings::lemma_deep_view_push(oldr, results, Value::Bool(b));
                        }
                    },
                    _ => {
                    },
                }
            }
            proof {
                assert(eval_at(t, sel, store, i as int, st_cur) == eval_at(
                    t,
                    sel,
                    store,
                    i + 1,
                    st_of(stack.deep_view(), results.deep_view(), capture.deep_view()),
                ));
            }
            i = i + 1;
        } else if str_eq(tok.as_str(), "(") {
            proof {
                assert(eval_at(t, sel, store, i as int, st_cur) == paren_scan(
                    t,
                    sel,
                    store,
                    i as int,
                    st_cur,
                ));
            }
            let mut j = i;
            while j < len
                invariant_except_break
                    start <= i <= j <= len,
                    len == qb_pipeline@.len(),
                    t == qb_pipeline.deep_view(),
                    sel == file_indexes@,
                    store == store_grids(files@),
                    values_wf(stack.deep_view()),
                    values_wf(results.deep_view()),
                    stack.deep_view() == st_cur.stack,
                    capture.deep_view() == st_cur.capture,
                    results.deep_view() == st_cur.results,
                    eval_at(t, sel, store, start as int, empty_state()) == paren_scan(
                        t,
                        sel,
                        store,
                        j as int,
                        st_cur,
                    ),
                ensures
                    start <= i <= j <= len,
                    len == qb_pipeline@.len(),
                    t == qb_pipeline.deep_view(),
                    sel == file_indexes@,
                    store == store_grids(files@),
                    values_wf(stack.deep_view()),
                    values_wf(results.deep_view()),
                    eval_at(t, sel, store, start as int, empty_state()) == if j < len {
                        eval_at(
                            t,
                            sel,
                            store,
                            j + 1,
                            st_of(stack.deep_view(), results.deep_view(), capture.deep_view()),
                        )
                    } else {
                        st_of(stack.deep_view(), results.deep_view(), capture.deep_view())
                    },
                decreases len - j,
            {
                if str_eq(qb_pipeline[j].as_str(), ")") {
                    proof {
                        assert(qb_pipeline@[j as int]@ == t[j as int]);
                    }
                    break;
                }
                proof {
                    assert(qb_pipeline@[j as int]@ == t[j as int]);
                }
                let sub = eval_from(qb_pipeline, file_indexes, files, j + 1);
                if sub.len() > 0 {
                    let first = clone_value(&sub[0]);
                    proof {
                        assert(sub.deep_view()[0] == first@);
                        assert(value_wf(sub.deep_view()[0]));
                    }
                    let ghost oldr = results;
                    let ghost fv = first;
                    results.push(first);
                    proof {
                        crate::strings::lemma_deep_view_push(oldr, results, fv);
                    }
                    break;
                }
                j = j + 1;
            }
            if j < len {
                i = j + 1;
            } else {
                break;
            }
        } else if str_eq(tok.as_str(), ")") {
            proof {
                assert(eval_at(t, sel, store, i as int, st_cur) == eval_at(
                    t,
                    sel,
                    store,
                    i + 1,
                    st_cur,
                ));
            }
            i = i + 1;
        } else {
            match parse_number(tok.as_str()) {
                Some(n) => {
                    let ghost olds = stack;
                    stack.push(Value::Number(n));
                    proof {
                        crate::strings::lemma_deep_view_push(olds, stack, Value::Number(n));
                    }
                },
                None => {
                    let f = tok.clone();
                    proof {
                        assert(f@ == t[i as int]);
                    }
                    let ghost oldr = results;
                    let ghost fv = Value::Field(f);
                    results.push(Value::Field(f));
                    proof {
                        crate::strings::lemma_deep_view_push(oldr, results, fv);
                    }
                },
            }
            proof {
                assert(eval_at(t, sel, store, i as int, st_cur) == eval_at(
                    t,
                    sel,
                    store,
                    i + 1,
                    st_of(stack.deep_view(), results.deep_view(), capture.deep_view()),
                ));
            }
            i = i + 1;
        }
    }
    if results.len() == 0 && stack.len() > 0 {
        let ghost olds0 = stack;
        match stack.pop() {
            Some(v) => {
                proof {
                    crate::strings::lemma_deep_view_pop(olds0, stack);
                    assert(olds0.deep_view().last() == v@);
                    assert(value_wf(olds0.deep_view().last()));
                }
                let ghost oldr = results;
                let ghost vv = v;
                results.push(v);
                proof {
                    crate::strings::lemma_deep_view_push(oldr, results, vv);
                }
            },
            None => {
                proof {
                    assert(false);
                }
            },
        }
    }
    results
}

/// Evaluates a token pipeline against the selected datasets of the store,
/// yielding the ordered result sequence the grammar prescribes.
pub fn process_csvqb_pipeline(
    qb_pipeline: &[String],
    file_indexes: &Vec<usize>,
    files: &Vec<(String, CsvGrid)>,
) -> (res: Vec<Value>)
    ensures
        res.deep_view() == eval_pipeline_spec(
            qb_pipeline.deep_view(),
            file_indexes@,
            store_grids(files@),
        ),
        values_wf(res.deep_view()),
{
    eval_from(qb_pipeline, file_indexes, files, 0)
}

} // verus!
