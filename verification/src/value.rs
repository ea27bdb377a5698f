//! The tagged result values a pipeline evaluation produces.

use vstd::prelude::*;
use crate::num::Num;

verus! {

/// A value produced by evaluating a pipeline: a boolean comparison result,
/// an exact number, text, a bare field reference passed through, or an
/// embedded result table (from a grouped count).
#[derive(Debug, Clone)]
pub enum Value {
    Bool(bool),
    Number(Num),
    Text(String),
    Field(String),
    QueryResult(Vec<Vec<String>>),
}

/// The abstract form of a `Value`: the same variants over mathematical
/// sequences.
pub ghost enum ValueV {
    Bool(bool),
    Number(Num),
    Text(Seq<char>),
    Field(Seq<char>),
    QueryResult(Seq<Seq<Seq<char>>>),
}

impl View for Value {
    type V = ValueV;

    open spec fn view(&self) -> ValueV {
        match self {
            Value::Bool(b) => ValueV::Bool(*b),
            Value::Number(n) => ValueV::Number(*n),
            Value::Text(s) => ValueV::Text(s@),
            Value::Field(s) => ValueV::Field(s@),
            Value::QueryResult(g) => ValueV::QueryResult(g.deep_view()),
        }
    }
}

impl DeepView for Value {
    type V = ValueV;

    open spec fn deep_view(&self) -> ValueV {
        self.view()
    }
}

/// A number on the stack or in the results is well-formed.
pub open spec fn value_wf(v: ValueV) -> bool {
    v matches ValueV::Number(n) ==> n.wf()
}

/// All values of a sequence are well-formed.
pub open spec fn values_wf(s: Seq<ValueV>) -> bool {
    forall|i: int| 0 <= i < s.len() ==> value_wf(#[trigger] s[i])
}

/// Clones a grid of cells, preserving its deep view.
pub fn clone_grid(g: &Vec<Vec<String>>) -> (r: Vec<Vec<String>>)
    ensures
        r.deep_view() == g.deep_view(),
{
    let n = g.len();
    let mut r: Vec<Vec<String>> = Vec::new();
    let mut i: usize = 0;
    while i < n
        invariant
            i <= n,
            n == g@.len(),
            r@.len() == i,
            forall|k: int| 0 <= k < i ==> r.deep_view()[k] == g.deep_view()[k],
        decreases n - i,
    {
        let row = g[i].clone();
        proof {
            crate::strings::lemma_clone_str_vec(g@[i as int], row);
        }
        let ghost oldr = r;
        let ghost rv = row;
        r.push(row);
        proof {
            crate::strings::lemma_deep_view_push(oldr, r, rv);
        }
        i = i + 1;
    }
    proof {
        assert(r.deep_view() =~= g.deep_view());
    }
    r
}

/// Clones a value, preserving its abstract form.
pub fn clone_value(v: &Value) -> (r: Value)
    ensures
        r@ == v@,
{
    match v {
        Value::Bool(b) => Value::Bool(*b),
        Value::Number(n) => Value::Number(*n),
        Value::Text(s) => Value::Text(s.clone()),
        Value::Field(s) => Value::Field(s.clone()),
        Value::QueryResult(g) => Value::QueryResult(clone_grid(g)),
    }
}

/// The operator vocabulary of the pipeline grammar.
#[derive(Debug)]
pub enum Operator {
    Sum,
    Avg,
    Count,
    GroupBy,
    Equals,
    GreaterThan,
    LessThan,
}

} // verus!
