//! Character-level text utilities: equality, splitting, trimming and joining.
//!
//! Whitespace here means the ASCII whitespace characters space, tab, carriage
//! return and line feed.

use vstd::prelude::*;

verus! {

/// Pushing onto a vector pushes the element's deep view onto the vector's
/// deep view.
pub proof fn lemma_deep_view_push<T: DeepView>(v: Vec<T>, w: Vec<T>, x: T)
    requires
        w@ == v@.push(x),
    ensures
        w.deep_view() == v.deep_view().push(x.deep_view()),
{
    assert forall|i: int| 0 <= i < w.deep_view().len() implies w.deep_view()[i]
        == v.deep_view().push(x.deep_view())[i] by {
        if i < v@.len() {
            assert(w@[i] == v@[i]);
        } else {
            assert(w@[i] == x);
        }
    }
    assert(w.deep_view() =~= v.deep_view().push(x.deep_view()));
}

/// Removing the last element of a vector drops the last element of its
/// deep view.
pub proof fn lemma_deep_view_pop<T: DeepView>(v: Vec<T>, w: Vec<T>)
    requires
        v@.len() > 0,
        w@ == v@.subrange(0, v@.len() - 1),
    ensures
        w.deep_view() == v.deep_view().drop_last(),
{
    assert forall|i: int| 0 <= i < w.deep_view().len() implies w.deep_view()[i]
        == v.deep_view().drop_last()[i] by {
        assert(w@[i] == v@[i]);
    }
    assert(w.deep_view() =~= v.deep_view().drop_last());
}

/// A clone of a vector of strings has the same deep view.
pub proof fn lemma_clone_str_vec(a: Vec<String>, b: Vec<String>)
    requires
        a@.len() == b@.len(),
        forall|i: int| #![all_triggers] 0 <= i < a@.len() ==> cloned::<String>(a@[i], b@[i]),
    ensures
        b.deep_view() == a.deep_view(),
{
    assert forall|i: int| 0 <= i < b.deep_view().len() implies b.deep_view()[i]
        == a.deep_view()[i] by {
        assert(cloned::<String>(a@[i], b@[i]));
        assert(b@[i]@ == a@[i]@);
    }
    assert(b.deep_view() =~= a.deep_view());
}

/// Updating one slot of a vector updates that slot of its deep view.
pub proof fn lemma_deep_view_update<T: DeepView>(v: Vec<T>, w: Vec<T>, i: int, x: T)
    requires
        0 <= i < v@.len(),
        w@ == v@.update(i, x),
    ensures
        w.deep_view() == v.deep_view().update(i, x.deep_view()),
{
    assert forall|k: int| 0 <= k < w.deep_view().len() implies w.deep_view()[k]
        == v.deep_view().update(i, x.deep_view())[k] by {
        if k == i {
            assert(w@[k] == x);
        } else {
            assert(w@[k] == v@[k]);
        }
    }
    assert(w.deep_view() =~= v.deep_view().update(i, x.deep_view()));
}

/// `c` is an ASCII whitespace character.
pub open spec fn is_space(c: char) -> bool {
    c == ' ' || c == '\t' || c == '\r' || c == '\n'
}

/// Character-by-character string equality.
pub fn str_eq(a: &str, b: &str) -> (r: bool)
    ensures
        r == (a@ == b@),
{
    let la = a.unicode_len();
    let lb = b.unicode_len();
    if la != lb {
        return false;
    }
    let mut i: usize = 0;
    while i < la
        invariant
            i <= la,
            la == a@.len(),
            la == b@.len(),
            forall|k: int| 0 <= k < i ==> a@[k] == b@[k],
        decreases la - i,
    {
        if a.get_char(i) != b.get_char(i) {
            return false;
        }
        i = i + 1;
    }
    proof {
        assert(a@ =~= b@);
    }
    true
}

/// The pieces of `s` split on `sep`: one more piece than there are
/// separators, in order, each piece free of `sep`.
pub open spec fn split_on(s: Seq<char>, sep: char) -> Seq<Seq<char>>
    decreases s.len(),
{
    if s.len() == 0 {
        seq![Seq::empty()]
    } else if s.last() == sep {
        split_on(s.drop_last(), sep).push(Seq::empty())
    } else {
        let p = split_on(s.drop_last(), sep);
        p.update(p.len() - 1, p.last().push(s.last()))
    }
}

/// Splitting always yields at least one piece.
pub proof fn lemma_split_on_len(s: Seq<char>, sep: char)
    ensures
        split_on(s, sep).len() >= 1,
    decreases s.len(),
{
    if s.len() > 0 {
        lemma_split_on_len(s.drop_last(), sep);
    }
}

/// Splits `s` on the separator `sep`.
pub fn split_str(s: &str, sep: char) -> (r: Vec<String>)
    ensures
        r.deep_view() == split_on(s@, sep),
{
    let len = s.unicode_len();
    let mut r: Vec<String> = Vec::new();
    let mut cs: usize = 0;
    let mut j: usize = 0;
    proof {
        lemma_split_on_len(s@.take(0), sep);
        assert(s@.take(0) =~= Seq::<char>::empty());
        assert(split_on(s@.take(0), sep).last() =~= s@.subrange(0, 0));
    }
    while j < len
        invariant
            cs <= j <= len,
            len == s@.len(),
            split_on(s@.take(j as int), sep).len() == r.deep_view().len() + 1,
            split_on(s@.take(j as int), sep).drop_last() == r.deep_view(),
            split_on(s@.take(j as int), sep).last() == s@.subrange(cs as int, j as int),
        decreases len - j,
    {
        let ghost p0 = split_on(s@.take(j as int), sep);
        let ghost p1 = split_on(s@.take(j + 1), sep);
        proof {
            assert(s@.take(j + 1).drop_last() =~= s@.take(j as int));
            assert(s@.take(j + 1).last() == s@[j as int]);
        }
        let c = s.get_char(j);
        if c == sep {
            let piece = s.substring_char(cs, j).to_owned();
            let ghost oldv = r@;
            let ghost olddv = r.deep_view();
            proof {
                assert(piece@ == p0.last());
            }
            r.push(piece);
            cs = j + 1;
            proof {
                assert(p1 == p0.push(Seq::<char>::empty()));
                assert(p1.drop_last() =~= p0);
                assert forall|i: int| 0 <= i < r.deep_view().len() implies r.deep_view()[i]
                    == p0[i] by {
                    if i < oldv.len() {
                        assert(r@[i] == oldv[i]);
                        assert(olddv[i] == oldv[i].deep_view());
                        assert(olddv[i] == p0.drop_last()[i]);
                    } else {
                        assert(r@[i] == piece);
                    }
                }
                assert(r.deep_view() =~= p0);
                assert(p1.last() =~= s@.subrange(cs as int, j + 1));
            }
        } else {
            proof {
                assert(p1 == p0.update(p0.len() - 1, p0.last().push(s@[j as int])));
                assert(p1.drop_last() =~= p0.drop_last());
                assert(p1.last() == p0.last().push(s@[j as int]));
                assert(p1.last() =~= s@.subrange(cs as int, j + 1));
            }
        }
        j = j + 1;
    }
    let piece = s.substring_char(cs, len).to_owned();
    let ghost pfin = split_on(s@.take(len as int), sep);
    let ghost oldv = r@;
    let ghost olddv = r.deep_view();
    proof {
        assert(s@.take(len as int) =~= s@);
        assert(piece@ == pfin.last());
    }
    r.push(piece);
    proof {
        assert forall|i: int| 0 <= i < r.deep_view().len() implies r.deep_view()[i]
            == pfin[i] by {
            if i < oldv.len() {
                assert(r@[i] == oldv[i]);
                assert(olddv[i] == oldv[i].deep_view());
                assert(olddv[i] == pfin.drop_last()[i]);
            } else {
                assert(r@[i] == piece);
            }
        }
        assert(r.deep_view() =~= pfin);
    }
    r
}

/// `s` contains the character `c`.
pub open spec fn has_char(s: Seq<char>, c: char) -> bool {
    exists|i: int| 0 <= i < s.len() && s[i] == c
}

/// Scans `s` for the character `c`.
pub fn contains_char(s: &str, c: char) -> (r: bool)
    ensures
        r == has_char(s@, c),
{
    let len = s.unicode_len();
    let mut i: usize = 0;
    while i < len
        invariant
            i <= len,
            len == s@.len(),
            forall|k: int| 0 <= k < i ==> s@[k] != c,
        decreases len - i,
    {
        if s.get_char(i) == c {
            proof {
                assert(s@[i as int] == c);
            }
            return true;
        }
        i = i + 1;
    }
    false
}

/// The nonempty pieces, in order.
pub open spec fn nonempty_pieces(ps: Seq<Seq<char>>) -> Seq<Seq<char>> {
    ps.filter(|p: Seq<char>| p.len() > 0)
}

/// Keeps the nonempty strings, in order.
pub fn filter_nonempty(ps: &Vec<String>) -> (r: Vec<String>)
    ensures
        r.deep_view() == nonempty_pieces(ps.deep_view()),
{
    let n = ps.len();
    let mut r: Vec<String> = Vec::new();
    let mut k: usize = 0;
    proof {
        reveal(Seq::filter);
        assert(ps.deep_view().take(0) =~= Seq::<Seq<char>>::empty());
        assert(r.deep_view() =~= nonempty_pieces(ps.deep_view().take(0)));
    }
    while k < n
        invariant
            k <= n,
            n == ps@.len(),
            r.deep_view() == nonempty_pieces(ps.deep_view().take(k as int)),
        decreases n - k,
    {
        let ghost t0 = ps.deep_view().take(k as int);
        let ghost t1 = ps.deep_view().take(k + 1);
        proof {
            reveal(Seq::filter);
            assert(t1.drop_last() =~= t0);
            assert(t1.last() == ps@[k as int]@);
        }
        if !ps[k].as_str().is_empty() {
            let piece = ps[k].clone();
            let ghost oldr = r;
            let ghost pv = piece;
            r.push(piece);
            proof {
                lemma_deep_view_push(oldr, r, pv);
            }
        }
        k = k + 1;
    }
    proof {
        assert(ps.deep_view().take(n as int) =~= ps.deep_view());
    }
    r
}

/// Number of leading whitespace characters of `s`.
pub open spec fn lead_spaces(s: Seq<char>) -> int
    decreases s.len(),
{
    if s.len() > 0 && is_space(s.first()) {
        1 + lead_spaces(s.drop_first())
    } else {
        0
    }
}

/// Number of trailing whitespace characters of `s`.
pub open spec fn trail_spaces(s: Seq<char>) -> int
    decreases s.len(),
{
    if s.len() > 0 && is_space(s.last()) {
        1 + trail_spaces(s.drop_last())
    } else {
        0
    }
}

/// `s` with leading and trailing whitespace removed.
pub open spec fn trim_spec(s: Seq<char>) -> Seq<char> {
    if lead_spaces(s) == s.len() {
        Seq::empty()
    } else {
        s.subrange(lead_spaces(s), s.len() - trail_spaces(s))
    }
}

/// If the first `k` characters are whitespace and the one after them is not
/// (or the string ends), then `k` is the number of leading spaces.
proof fn lemma_lead_spaces(s: Seq<char>, k: int)
    requires
        0 <= k <= s.len(),
        forall|i: int| 0 <= i < k ==> is_space(s[i]),
        k == s.len() || !is_space(s[k]),
    ensures
        lead_spaces(s) == k,
    decreases s.len(),
{
    if s.len() > 0 && is_space(s.first()) {
        let t = s.drop_first();
        assert(k >= 1);
        assert forall|i: int| 0 <= i < k - 1 implies is_space(t[i]) by {
            assert(t[i] == s[i + 1]);
        }
        assert(k - 1 == t.len() || !is_space(t[k - 1]));
        lemma_lead_spaces(t, k - 1);
    }
}

/// The mirror image of `lemma_lead_spaces` for trailing spaces.
proof fn lemma_trail_spaces(s: Seq<char>, k: int)
    requires
        0 <= k <= s.len(),
        forall|i: int| s.len() - k <= i < s.len() ==> is_space(s[i]),
        k == s.len() || !is_space(s[s.len() - k - 1]),
    ensures
        trail_spaces(s) == k,
    decreases s.len(),
{
    if s.len() > 0 && is_space(s.last()) {
        let t = s.drop_last();
        assert(k >= 1);
        assert forall|i: int| t.len() - (k - 1) <= i < t.len() implies is_space(t[i]) by {
            assert(t[i] == s[i]);
        }
        lemma_trail_spaces(t, k - 1);
    }
}

/// Removes leading and trailing whitespace from `s`.
pub fn trim_str(s: &str) -> (r: String)
    ensures
        r@ == trim_spec(s@),
{
    let len = s.unicode_len();
    let mut ts: usize = 0;
    while ts < len
        invariant
            ts <= len,
            len == s@.len(),
            forall|i: int| 0 <= i < ts ==> is_space(s@[i]),
        ensures
            ts <= len,
            len == s@.len(),
            forall|i: int| 0 <= i < ts ==> is_space(s@[i]),
            ts == len || !is_space(s@[ts as int]),
        decreases len - ts,
    {
        let c = s.get_char(ts);
        if !(c == ' ' || c == '\t' || c == '\r' || c == '\n') {
            break;
        }
        ts = ts + 1;
    }
    if ts == len {
        proof {
            lemma_lead_spaces(s@, len as int);
        }
        let r = String::new();
        proof {
            assert(r@ =~= trim_spec(s@));
        }
        return r;
    }
    proof {
        lemma_lead_spaces(s@, ts as int);
    }
    let mut te: usize = len;
    while te > ts
        invariant
            ts <= te <= len,
            len == s@.len(),
            forall|i: int| te <= i < len ==> is_space(s@[i]),
        ensures
            ts <= te <= len,
            len == s@.len(),
            forall|i: int| te <= i < len ==> is_space(s@[i]),
            te == ts || !is_space(s@[te - 1]),
        decreases te,
    {
        let c = s.get_char(te - 1);
        if !(c == ' ' || c == '\t' || c == '\r' || c == '\n') {
            break;
        }
        te = te - 1;
    }
    proof {
        assert(!is_space(s@[ts as int]));
        assert(te > ts);
        lemma_trail_spaces(s@, len - te as int);
    }
    s.substring_char(ts, te).to_owned()
}

/// The pieces joined with `sep` between consecutive pieces.
pub open spec fn join_with(ps: Seq<Seq<char>>, sep: char) -> Seq<char>
    decreases ps.len(),
{
    if ps.len() == 0 {
        Seq::empty()
    } else if ps.len() == 1 {
        ps[0]
    } else {
        join_with(ps.drop_last(), sep) + seq![sep] + ps.last()
    }
}

/// Joins `items` with the one-character separator `sep`.
pub fn join_strs(items: &Vec<String>, sep: &str) -> (r: String)
    requires
        sep@.len() == 1,
    ensures
        r@ == join_with(items.deep_view(), sep@[0]),
{
    let mut r = String::new();
    let n = items.len();
    let mut j: usize = 0;
    while j < n
        invariant
            j <= n,
            n == items@.len(),
            sep@.len() == 1,
            r@ == join_with(items.deep_view().take(j as int), sep@[0]),
        decreases n - j,
    {
        let ghost t0 = items.deep_view().take(j as int);
        let ghost t1 = items.deep_view().take(j + 1);
        proof {
            assert(t1.drop_last() =~= t0);
            assert(t1.last() == items@[j as int].deep_view());
        }
        if j > 0 {
            r.append(sep);
        }
        r.append(items[j].as_str());
        proof {
            if j == 0 {
                assert(t1.len() == 1);
                assert(r@ =~= join_with(t1, sep@[0]));
            } else {
                assert(seq![sep@[0]] =~= sep@);
                assert(r@ =~= join_with(t1, sep@[0]));
            }
        }
        j = j + 1;
    }
    proof {
        assert(items.deep_view().take(n as int) =~= items.deep_view());
    }
    r
}

} // verus!
