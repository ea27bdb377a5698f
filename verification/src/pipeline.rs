//! The textual form of a pipeline: tokens joined with single spaces for
//! persistence, and split back on whitespace.

use vstd::prelude::*;
use crate::strings::{is_space, join_with, join_strs, lemma_deep_view_push};

verus! {

/// The whitespace-separated tokens of `s`: maximal nonempty runs of
/// non-whitespace characters, in order.
pub open spec fn ws_split(s: Seq<char>) -> Seq<Seq<char>>
    decreases s.len(),
{
    if s.len() == 0 {
        Seq::empty()
    } else if is_space(s.last()) {
        ws_split(s.drop_last())
    } else if s.drop_last().len() > 0 && !is_space(s.drop_last().last()) {
        let p = ws_split(s.drop_last());
        p.update(p.len() - 1, p.last().push(s.last()))
    } else {
        ws_split(s.drop_last()).push(seq![s.last()])
    }
}

/// Joins pipeline tokens into one line with single spaces between them.
pub fn join_pipeline(tokens: &Vec<String>) -> (r: String)
    ensures
        r@ == join_with(tokens.deep_view(), ' '),
{
    proof {
        reveal_strlit(" ");
        assert(" "@ =~= seq![' ']);
    }
    join_strs(tokens, " ")
}

/// Splits a pipeline line into its whitespace-separated tokens.
pub fn split_pipeline(s: &str) -> (r: Vec<String>)
    ensures
        r.deep_view() == ws_split(s@),
{
    let len = s.unicode_len();
    let mut r: Vec<String> = Vec::new();
    let mut cs: usize = 0;
    let mut in_tok = false;
    let mut j: usize = 0;
    proof {
        assert(s@.take(0) =~= Seq::<char>::empty());
        assert(r.deep_view() =~= ws_split(s@.take(0)));
    }
    while j < len
        invariant
            j <= len,
            len == s@.len(),
            in_tok ==> cs < j,
            !in_tok ==> ws_split(s@.take(j as int)) == r.deep_view(),
            !in_tok ==> j == 0 || is_space(s@[j - 1]),
            in_tok ==> {
                &&& !is_space(s@[j - 1])
                &&& ws_split(s@.take(j as int)) == r.deep_view().push(
                    s@.subrange(cs as int, j as int),
                )
                &&& ws_split(s@.take(j as int)).len() == r.deep_view().len() + 1
            },
        decreases len - j,
    {
        let c = s.get_char(j);
        let ghost t0 = s@.take(j as int);
        let ghost t1 = s@.take(j + 1);
        proof {
            assert(t1.drop_last() =~= t0);
            assert(t1.last() == s@[j as int]);
        }
        if c == ' ' || c == '\t' || c == '\r' || c == '\n' {
            if in_tok {
                let piece = s.substring_char(cs, j).to_owned();
                let ghost oldr = r;
                let ghost pv = piece;
                r.push(piece);
                proof {
                    lemma_deep_view_push(oldr, r, pv);
                    assert(ws_split(t1) == ws_split(t0));
                    assert(r.deep_view() =~= ws_split(t1));
                }
                in_tok = false;
            }
        } else {
            if !in_tok {
                cs = j;
                in_tok = true;
                proof {
                    if t0.len() > 0 {
                        assert(is_space(t0.last()));
                    }
                    assert(ws_split(t1) == ws_split(t0).push(seq![s@[j as int]]));
                    assert(s@.subrange(j as int, j + 1) =~= seq![s@[j as int]]);
                }
            } else {
                proof {
                    assert(t0.last() == s@[j - 1]);
                    assert(ws_split(t1) == ws_split(t0).update(
                        ws_split(t0).len() - 1,
                        ws_split(t0).last().push(s@[j as int]),
                    ));
                    assert(ws_split(t0).last() == s@.subrange(cs as int, j as int));
                    assert(s@.subrange(cs as int, j as int).push(s@[j as int]) =~= s@.subrange(
                        cs as int,
                        j + 1,
                    ));
                    assert(ws_split(t1) =~= r.deep_view().push(s@.subrange(cs as int, j + 1)));
                }
            }
        }
        j = j + 1;
    }
    proof {
        assert(s@.take(len as int) =~= s@);
    }
    if in_tok {
        let piece = s.substring_char(cs, len).to_owned();
        let ghost oldr = r;
        let ghost pv = piece;
        r.push(piece);
        proof {
            lemma_deep_view_push(oldr, r, pv);
            assert(r.deep_view() =~= ws_split(s@));
        }
    }
    r
}

/// A token fit for the textual pipeline form: nonempty, with no whitespace.
pub open spec fn plain_token(w: Seq<char>) -> bool {
    w.len() > 0 && forall|k: int| 0 <= k < w.len() ==> !is_space(#[trigger] w[k])
}

/// Splitting a single plain token yields just that token.
proof fn lemma_ws_single(w: Seq<char>)
    requires
        plain_token(w),
    ensures
        ws_split(w) == seq![w],
    decreases w.len(),
{
    assert(!is_space(w.last()));
    if w.len() == 1 {
        assert(seq![w.last()] =~= w);
        assert(ws_split(w.drop_last()) =~= Seq::<Seq<char>>::empty());
        assert(ws_split(w) =~= seq![w]);
    } else {
        let d = w.drop_last();
        assert forall|k: int| 0 <= k < d.len() implies !is_space(#[trigger] d[k]) by {
            assert(d[k] == w[k]);
        }
        lemma_ws_single(d);
        assert(ws_split(w) == ws_split(d).update(0, ws_split(d).last().push(w.last())));
        assert(ws_split(d).last() == d);
        assert(d.push(w.last()) =~= w);
        assert(ws_split(w) =~= seq![w]);
    }
}

/// Appending a space and a plain token to any text appends one token to
/// its whitespace split.
proof fn lemma_ws_append(u: Seq<char>, w: Seq<char>)
    requires
        plain_token(w),
    ensures
        ws_split(u + seq![' '] + w) == ws_split(u).push(w),
    decreases w.len(),
{
    let s = u + seq![' '] + w;
    assert(s.last() == w.last());
    assert(!is_space(w.last()));
    if w.len() == 1 {
        assert(s.drop_last() =~= u + seq![' ']);
        assert((u + seq![' ']).last() == ' ');
        assert((u + seq![' ']).drop_last() =~= u);
        assert(ws_split(u + seq![' ']) == ws_split(u));
        assert(ws_split(s) == ws_split(u).push(seq![s.last()]));
        assert(seq![s.last()] =~= w);
    } else {
        let d = w.drop_last();
        assert forall|k: int| 0 <= k < d.len() implies !is_space(#[trigger] d[k]) by {
            assert(d[k] == w[k]);
        }
        lemma_ws_append(u, d);
        assert(s.drop_last() =~= u + seq![' '] + d);
        assert(s.drop_last().last() == d.last());
        assert(!is_space(d.last()));
        let p = ws_split(u + seq![' '] + d);
        assert(p == ws_split(u).push(d));
        assert(ws_split(s) == p.update(p.len() - 1, p.last().push(w.last())));
        assert(p.last() == d);
        assert(d.push(w.last()) =~= w);
        assert(ws_split(s) =~= ws_split(u).push(w));
    }
}

/// Round trip: joining tokens that contain no whitespace (and are not
/// empty) with single spaces and splitting the result on whitespace
/// returns exactly the original tokens.
pub proof fn lemma_pipeline_round_trip(tokens: Seq<Seq<char>>)
    requires
        forall|i: int| 0 <= i < tokens.len() ==> plain_token(#[trigger] tokens[i]),
    ensures
        ws_split(join_with(tokens, ' ')) == tokens,
    decreases tokens.len(),
{
    if tokens.len() == 0 {
        assert(join_with(tokens, ' ') == Seq::<char>::empty());
        assert(ws_split(join_with(tokens, ' ')) =~= tokens);
    } else if tokens.len() == 1 {
        lemma_ws_single(tokens[0]);
        assert(ws_split(join_with(tokens, ' ')) =~= tokens);
    } else {
        let d = tokens.drop_last();
        assert forall|i: int| 0 <= i < d.len() implies plain_token(#[trigger] d[i]) by {
            assert(d[i] == tokens[i]);
        }
        lemma_pipeline_round_trip(d);
        assert(join_with(tokens, ' ') == join_with(d, ' ') + seq![' '] + tokens.last());
        lemma_ws_append(join_with(d, ' '), tokens.last());
        assert(ws_split(join_with(tokens, ' ')) == ws_split(join_with(d, ' ')).push(
            tokens.last(),
        ));
        assert(d.push(tokens.last()) =~= tokens);
    }
}

} // verus!
