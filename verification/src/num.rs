//! Exact rational numbers for cell values and pipeline arithmetic.
//!
//! A `Num` is a fraction `num / den` with `den >= 1`, kept unreduced. Every
//! operation is exact; an operation whose unreduced result would leave the
//! machine range reports that instead of wrapping or rounding.

use vstd::prelude::*;

verus! {

/// A rational number `num / den`. Well-formed values have `den >= 1`.
#[derive(Clone, Copy, Debug)]
pub struct Num {
    pub num: i64,
    pub den: u64,
}

/// Numerator of the unreduced sum of `a` and `b`.
pub open spec fn sum_num_v(a: Num, b: Num) -> int {
    a.num as int * b.den as int + b.num as int * a.den as int
}

/// Denominator of the unreduced sum or product of `a` and `b`.
pub open spec fn prod_den_v(a: Num, b: Num) -> int {
    a.den as int * b.den as int
}

/// Numerator of the unreduced product of `a` and `b`.
pub open spec fn prod_num_v(a: Num, b: Num) -> int {
    a.num as int * b.num as int
}

/// The unreduced sum of `a` and `b` stays within the machine range.
pub open spec fn sum_fits(a: Num, b: Num) -> bool {
    &&& prod_den_v(a, b) <= u64::MAX as int
    &&& i64::MIN as int <= sum_num_v(a, b) <= i64::MAX as int
}

/// The unreduced product of `a` and `b` stays within the machine range.
pub open spec fn prod_fits(a: Num, b: Num) -> bool {
    &&& prod_den_v(a, b) <= u64::MAX as int
    &&& i64::MIN as int <= prod_num_v(a, b) <= i64::MAX as int
}

impl Num {
    /// Well-formedness: the denominator is positive.
    pub open spec fn wf(self) -> bool {
        self.den >= 1
    }

    /// The two fractions denote the same rational (cross multiplication).
    pub open spec fn rat_eq(self, other: Num) -> bool {
        self.num as int * other.den as int == other.num as int * self.den as int
    }

    /// `self` denotes a strictly smaller rational than `other`.
    pub open spec fn rat_lt(self, other: Num) -> bool {
        (self.num as int * other.den as int) < (other.num as int * self.den as int)
    }

    /// The rational `i / 1`.
    pub fn from_int(i: i64) -> (r: Num)
        ensures
            r.num == i,
            r.den == 1,
            r.wf(),
    {
        Num { num: i, den: 1 }
    }

    /// Exact sum, or `None` when the unreduced result leaves the machine range.
    pub fn checked_add(self, other: Num) -> (r: Option<Num>)
        requires
            self.wf(),
            other.wf(),
        ensures
            r is Some <==> sum_fits(self, other),
            r matches Some(n) ==> {
                &&& n.num as int == sum_num_v(self, other)
                &&& n.den as int == prod_den_v(self, other)
                &&& n.wf()
            },
    {
        proof {
            lemma_den_prod_range(self.den as int, other.den as int);
        }
        let d: u128 = (self.den as u128) * (other.den as u128);
        if d > u64::MAX as u128 {
            return None;
        }
        proof {
            lemma_scaled_num_bound(self.num as int, other.den as int);
            lemma_scaled_num_bound(other.num as int, self.den as int);
            lemma_sum_terms_range(
                self.num as int,
                self.den as int,
                other.num as int,
                other.den as int,
            );
        }
        let t1: i128 = (self.num as i128) * (other.den as i128);
        let t2: i128 = (other.num as i128) * (self.den as i128);
        let s: i128 = t1 + t2;
        if s < i64::MIN as i128 || s > i64::MAX as i128 {
            return None;
        }
        Some(Num { num: s as i64, den: d as u64 })
    }

    /// Exact product, or `None` when the unreduced result leaves the machine range.
    pub fn checked_mul(self, other: Num) -> (r: Option<Num>)
        requires
            self.wf(),
            other.wf(),
        ensures
            r is Some <==> prod_fits(self, other),
            r matches Some(n) ==> {
                &&& n.num as int == prod_num_v(self, other)
                &&& n.den as int == prod_den_v(self, other)
                &&& n.wf()
            },
    {
        proof {
            lemma_den_prod_range(self.den as int, other.den as int);
        }
        let d: u128 = (self.den as u128) * (other.den as u128);
        if d > u64::MAX as u128 {
            return None;
        }
        proof {
            lemma_num_prod_bound(self.num as int, other.num as int);
        }
        let t: i128 = (self.num as i128) * (other.num as i128);
        if t < i64::MIN as i128 || t > i64::MAX as i128 {
            return None;
        }
        Some(Num { num: t as i64, den: d as u64 })
    }

    /// Adds as a total step, keeping `self` when the sum leaves the range.
    pub fn add_or_keep(self, other: Num) -> (r: Num)
        requires
            self.wf(),
            other.wf(),
        ensures
            r == sum_or_keep(self, other),
            r.wf(),
    {
        match self.checked_add(other) {
            Some(n) => n,
            None => self,
        }
    }

    /// Multiplies as a total step, keeping `self` when the product leaves
    /// the range.
    pub fn mul_or_keep(self, other: Num) -> (r: Num)
        requires
            self.wf(),
            other.wf(),
        ensures
            r == prod_or_keep(self, other),
            r.wf(),
    {
        match self.checked_mul(other) {
            Some(n) => n,
            None => self,
        }
    }

    /// Divides by a positive count: scales the denominator when the result
    /// stays in range, and keeps the value undivided otherwise.
    pub fn div_count(self, k: u64) -> (r: Num)
        requires
            self.wf(),
            k >= 1,
        ensures
            r == div_by_count(self, k),
            r.wf(),
    {
        proof {
            lemma_den_prod_range(self.den as int, k as int);
        }
        let d: u128 = (self.den as u128) * (k as u128);
        if d > u64::MAX as u128 {
            self
        } else {
            Num { num: self.num, den: d as u64 }
        }
    }

    /// Exact order test: `self < other` as rationals.
    pub fn lt(self, other: Num) -> (r: bool)
        requires
            self.wf(),
            other.wf(),
        ensures
            r == self.rat_lt(other),
    {
        proof {
            lemma_scaled_num_bound(self.num as int, other.den as int);
            lemma_scaled_num_bound(other.num as int, self.den as int);
        }
        let a: i128 = (self.num as i128) * (other.den as i128);
        let b: i128 = (other.num as i128) * (self.den as i128);
        a < b
    }

    /// Exact equality test: `self == other` as rationals.
    pub fn eq_rat(self, other: Num) -> (r: bool)
        requires
            self.wf(),
            other.wf(),
        ensures
            r == self.rat_eq(other),
    {
        proof {
            lemma_scaled_num_bound(self.num as int, other.den as int);
            lemma_scaled_num_bound(other.num as int, self.den as int);
        }
        let a: i128 = (self.num as i128) * (other.den as i128);
        let b: i128 = (other.num as i128) * (self.den as i128);
        a == b
    }
}

impl View for Num {
    type V = Num;

    open spec fn view(&self) -> Num {
        *self
    }
}

impl DeepView for Num {
    type V = Num;

    open spec fn deep_view(&self) -> Num {
        *self
    }
}

/// Adding as a total step: the exact sum when it stays in range, the
/// accumulator `a` unchanged otherwise.
pub open spec fn sum_or_keep(a: Num, b: Num) -> Num {
    if sum_fits(a, b) {
        Num { num: sum_num_v(a, b) as i64, den: prod_den_v(a, b) as u64 }
    } else {
        a
    }
}

/// Multiplying as a total step: the exact product when it stays in range,
/// the accumulator `a` unchanged otherwise.
pub open spec fn prod_or_keep(a: Num, b: Num) -> Num {
    if prod_fits(a, b) {
        Num { num: prod_num_v(a, b) as i64, den: prod_den_v(a, b) as u64 }
    } else {
        a
    }
}

/// A saturating count increment.
pub open spec fn count_inc(c: u64) -> u64 {
    if c < u64::MAX {
        (c + 1) as u64
    } else {
        c
    }
}

/// Division by a positive count as a total step: the denominator is scaled
/// when that stays in range; otherwise the value is kept undivided.
pub open spec fn div_by_count(a: Num, k: u64) -> Num {
    if a.den as int * k as int <= u64::MAX as int {
        Num { num: a.num, den: (a.den as int * k as int) as u64 }
    } else {
        a
    }
}

/// `c` is a decimal digit.
pub open spec fn is_digit(c: char) -> bool {
    '0' <= c && c <= '9'
}

/// Numeric value of the digit `c`.
pub open spec fn digit_val(c: char) -> int {
    c as int - '0' as int
}

/// Every character of `s` is a digit or a decimal point.
pub open spec fn digits_and_dots(s: Seq<char>) -> bool {
    forall|i: int| 0 <= i < s.len() ==> is_digit(s[i]) || s[i] == '.'
}

/// Number of decimal points in `s`.
pub open spec fn dot_count(s: Seq<char>) -> int
    decreases s.len(),
{
    if s.len() == 0 {
        0
    } else {
        dot_count(s.drop_last()) + if s.last() == '.' { 1int } else { 0int }
    }
}

/// Number of digits in `s`.
pub open spec fn digit_count(s: Seq<char>) -> int
    decreases s.len(),
{
    if s.len() == 0 {
        0
    } else {
        digit_count(s.drop_last()) + if is_digit(s.last()) { 1int } else { 0int }
    }
}

/// `s` is the body of a numeric literal: digits with at most one decimal
/// point, and at least one digit.
pub open spec fn valid_num_body(s: Seq<char>) -> bool {
    &&& digits_and_dots(s)
    &&& dot_count(s) <= 1
    &&& digit_count(s) >= 1
}

/// The magnitude of the digit string `s` with any decimal point ignored.
pub open spec fn mag_val(s: Seq<char>) -> int
    decreases s.len(),
{
    if s.len() == 0 {
        0
    } else if s.last() == '.' {
        mag_val(s.drop_last())
    } else {
        mag_val(s.drop_last()) * 10 + digit_val(s.last())
    }
}

/// Number of digits of `s` after its decimal point; 0 when there is none.
pub open spec fn frac_len(s: Seq<char>) -> int
    decreases s.len(),
{
    if s.len() == 0 {
        0
    } else if s.last() == '.' {
        0
    } else if dot_count(s) == 0 {
        0
    } else {
        frac_len(s.drop_last()) + 1
    }
}

/// Ten to the power `k`.
pub open spec fn pow10(k: nat) -> int
    decreases k,
{
    if k == 0 {
        1
    } else {
        10 * pow10((k - 1) as nat)
    }
}

/// The body of a numeric token: everything after an optional sign.
pub open spec fn num_body(s: Seq<char>) -> Seq<char> {
    if s.len() > 0 && (s[0] == '+' || s[0] == '-') {
        s.skip(1)
    } else {
        s
    }
}

/// The token carries a minus sign.
pub open spec fn num_is_neg(s: Seq<char>) -> bool {
    s.len() > 0 && s[0] == '-'
}

/// What parsing `s` as a decimal numeric literal yields: the exact rational
/// `[-] digits.digits`, or `None` when `s` is not such a literal, its
/// magnitude leaves the `i64` range, or it has more than 19 fraction digits.
pub open spec fn parse_num_spec(s: Seq<char>) -> Option<Num> {
    let b = num_body(s);
    if valid_num_body(b) && mag_val(b) <= i64::MAX as int && frac_len(b) <= 19 {
        Some(
            Num {
                num: (if num_is_neg(s) {
                    -mag_val(b)
                } else {
                    mag_val(b)
                }) as i64,
                den: pow10(frac_len(b) as nat) as u64,
            },
        )
    } else {
        None
    }
}

/// The counting functions are nonnegative, and the magnitude of a
/// digits-and-dots string is nonnegative.
proof fn lemma_counts_nonneg(s: Seq<char>)
    requires
        digits_and_dots(s),
    ensures
        mag_val(s) >= 0,
        frac_len(s) >= 0,
        dot_count(s) >= 0,
        digit_count(s) >= 0,
    decreases s.len(),
{
    if s.len() > 0 {
        assert forall|i: int| 0 <= i < s.drop_last().len() implies is_digit(s.drop_last()[i])
            || s.drop_last()[i] == '.' by {
            assert(s.drop_last()[i] == s[i]);
        }
        lemma_counts_nonneg(s.drop_last());
    }
}

/// Every prefix of a well-shaped digit string is bounded by the whole:
/// the counts and the magnitude only grow as the string is extended.
proof fn lemma_prefix_bounds(s: Seq<char>, k: int)
    requires
        0 <= k <= s.len(),
        digits_and_dots(s),
        dot_count(s) <= 1,
    ensures
        mag_val(s.take(k)) <= mag_val(s),
        frac_len(s.take(k)) <= frac_len(s),
        dot_count(s.take(k)) <= dot_count(s),
        digit_count(s.take(k)) <= digit_count(s),
    decreases s.len() - k,
{
    lemma_counts_nonneg(s);
    if k == s.len() {
        assert(s.take(k) =~= s);
    } else {
        lemma_prefix_bounds(s, k + 1);
        let t0 = s.take(k);
        let t1 = s.take(k + 1);
        assert(t1.drop_last() =~= t0);
        assert(t1.last() == s[k]);
        assert forall|i: int| 0 <= i < t0.len() implies is_digit(t0[i]) || t0[i] == '.' by {
            assert(t0[i] == s[i]);
        }
        lemma_counts_nonneg(t0);
        if s[k] == '.' {
            assert(dot_count(t1) == dot_count(t0) + 1);
            assert(dot_count(t0) == 0);
            assert(frac_len(t0) == 0) by {
                if t0.len() > 0 && t0.last() != '.' {
                }
            }
        } else {
            assert(mag_val(t1) == mag_val(t0) * 10 + digit_val(s[k]));
            assert(mag_val(t0) * 10 >= mag_val(t0)) by (nonlinear_arith)
                requires
                    mag_val(t0) >= 0,
            ;
            assert(digit_val(s[k]) >= 0);
            if dot_count(t1) == 0 {
                assert(frac_len(t1) == 0);
                assert(dot_count(t0) >= 0);
                assert(dot_count(t0) == 0);
                assert(frac_len(t0) == 0);
            }
        }
    }
}

/// `pow10` is positive, monotone, and bounded by `10^19` on the range the
/// parser admits.
proof fn lemma_pow10_bounds(k: nat)
    requires
        k <= 19,
    ensures
        1 <= pow10(k),
        pow10(k) <= pow10(19),
        pow10(19) == 0x8ac7230489e80000,
    decreases 19 - k,
{
    assert(pow10(19) == 0x8ac7230489e80000) by {
        reveal_with_fuel(pow10, 21);
    }
    if k == 19 {
    } else {
        lemma_pow10_bounds(k + 1);
        assert(pow10((k + 1) as nat) == 10 * pow10(k));
        assert(pow10(k) >= 1) by {
            reveal_with_fuel(pow10, 21);
            lemma_pow10_pos(k);
        }
    }
}

/// `pow10` is at least one.
proof fn lemma_pow10_pos(k: nat)
    ensures
        pow10(k) >= 1,
    decreases k,
{
    if k > 0 {
        lemma_pow10_pos((k - 1) as nat);
    }
}

/// A successfully parsed numeric literal is well-formed.
pub proof fn lemma_parse_wf(s: Seq<char>)
    ensures
        parse_num_spec(s) matches Some(n) ==> n.wf(),
{
    if parse_num_spec(s) is Some {
        lemma_counts_nonneg(num_body(s));
        lemma_pow10_bounds(frac_len(num_body(s)) as nat);
    }
}

/// The total sum step preserves well-formedness.
pub proof fn lemma_sum_or_keep_wf(a: Num, b: Num)
    requires
        a.wf(),
        b.wf(),
    ensures
        sum_or_keep(a, b).wf(),
        prod_or_keep(a, b).wf(),
{
    if prod_den_v(a, b) <= u64::MAX as int {
        assert(1 <= a.den as int * b.den as int) by (nonlinear_arith)
            requires
                1 <= a.den,
                1 <= b.den,
        ;
    }
}

/// Parses a decimal numeric literal (optional sign, digits, optional single
/// decimal point) into the exact rational it denotes.
pub fn parse_number(s: &str) -> (r: Option<Num>)
    ensures
        r == parse_num_spec(s@),
        r matches Some(n) ==> n.wf(),
{
    let len = s.unicode_len();
    let mut start: usize = 0;
    let mut neg = false;
    if len > 0 {
        let c0 = s.get_char(0);
        if c0 == '-' {
            neg = true;
            start = 1;
        } else if c0 == '+' {
            start = 1;
        }
    }
    let ghost b = num_body(s@);
    proof {
        assert(b =~= s@.skip(start as int));
    }
    if start >= len {
        proof {
            assert(b.take(len - start as int) =~= b);
            assert(b.len() == 0);
        }
        return None;
    }
    let mut acc: u128 = 0;
    let mut frac: u64 = 0;
    let mut digits = false;
    let mut seen_dot = false;
    let mut j = start;
    while j < len
        invariant
            start <= j <= len,
            len == s@.len(),
            b == num_body(s@),
            b =~= s@.skip(start as int),
            neg == num_is_neg(s@),
            digits_and_dots(b.take(j - start)),
            dot_count(b.take(j - start)) == if seen_dot { 1int } else { 0int },
            digits == (digit_count(b.take(j - start)) >= 1),
            mag_val(b.take(j - start)) == acc as int,
            acc <= i64::MAX as u128,
            frac_len(b.take(j - start)) == frac as int,
            frac <= 19,
        decreases len - j,
    {
        let c = s.get_char(j);
        let ghost t0 = b.take(j - start);
        let ghost t1 = b.take(j + 1 - start);
        proof {
            assert(c == b[j - start]);
            assert(t1.drop_last() =~= t0);
            assert(t1.last() == b[j - start]);
            lemma_counts_nonneg(t0);
        }
        if c == '.' {
            if seen_dot {
                proof {
                    if parse_num_spec(s@) is Some {
                        lemma_prefix_bounds(b, j + 1 - start);
                        assert(dot_count(t1) == 2);
                        assert(false);
                    }
                }
                return None;
            }
            seen_dot = true;
        } else if '0' <= c && c <= '9' {
            let d = (c as u32 - '0' as u32) as u128;
            let next = acc * 10 + d;
            if next > i64::MAX as u128 {
                proof {
                    if parse_num_spec(s@) is Some {
                        lemma_prefix_bounds(b, j + 1 - start);
                        assert(mag_val(t1) == next as int);
                        assert(false);
                    }
                }
                return None;
            }
            acc = next;
            digits = true;
            if seen_dot {
                if frac == 19 {
                    proof {
                        if parse_num_spec(s@) is Some {
                            lemma_prefix_bounds(b, j + 1 - start);
                            assert(frac_len(t1) == 20);
                            assert(false);
                        }
                    }
                    return None;
                }
                frac = frac + 1;
            }
        } else {
            proof {
                assert(!(is_digit(b[j - start]) || b[j - start] == '.'));
                assert(!digits_and_dots(b));
            }
            return None;
        }
        j = j + 1;
    }
    proof {
        assert(b.take(len - start as int) =~= b);
    }
    if !digits {
        return None;
    }
    let mut den: u64 = 1;
    let mut t: u64 = 0;
    while t < frac
        invariant
            t <= frac <= 19,
            den == pow10(t as nat),
        decreases frac - t,
    {
        proof {
            lemma_pow10_bounds(t as nat);
            lemma_pow10_bounds((t + 1) as nat);
        }
        den = den * 10;
        t = t + 1;
    }
    proof {
        lemma_pow10_bounds(frac as nat);
    }
    let mag = acc as i64;
    let num = if neg {
        -mag
    } else {
        mag
    };
    Some(Num { num, den })
}

/// The character for the decimal digit `d`.
pub open spec fn digit_char(d: int) -> char {
    if d == 0 {
        '0'
    } else if d == 1 {
        '1'
    } else if d == 2 {
        '2'
    } else if d == 3 {
        '3'
    } else if d == 4 {
        '4'
    } else if d == 5 {
        '5'
    } else if d == 6 {
        '6'
    } else if d == 7 {
        '7'
    } else if d == 8 {
        '8'
    } else {
        '9'
    }
}

/// The decimal digit string of `n`, most significant digit first.
pub open spec fn dec_digits(n: nat) -> Seq<char>
    decreases n,
{
    if n < 10 {
        seq![digit_char(n as int)]
    } else {
        dec_digits(n / 10) + seq![digit_char((n % 10) as int)]
    }
}

/// The one-character string for the digit `d`.
fn digit_str(d: u64) -> (r: &'static str)
    requires
        d < 10,
    ensures
        r@ == seq![digit_char(d as int)],
{
    proof {
        reveal_strlit("0");
        reveal_strlit("1");
        reveal_strlit("2");
        reveal_strlit("3");
        reveal_strlit("4");
        reveal_strlit("5");
        reveal_strlit("6");
        reveal_strlit("7");
        reveal_strlit("8");
        reveal_strlit("9");
    }
    let r = if d == 0 {
        "0"
    } else if d == 1 {
        "1"
    } else if d == 2 {
        "2"
    } else if d == 3 {
        "3"
    } else if d == 4 {
        "4"
    } else if d == 5 {
        "5"
    } else if d == 6 {
        "6"
    } else if d == 7 {
        "7"
    } else if d == 8 {
        "8"
    } else {
        "9"
    };
    proof {
        assert(r@ =~= seq![digit_char(d as int)]);
    }
    r
}

/// Renders `n` in decimal.
pub fn u64_to_string(n: u64) -> (r: String)
    ensures
        r@ == dec_digits(n as nat),
    decreases n,
{
    if n < 10 {
        let mut s = String::new();
        s.append(digit_str(n));
        proof {
            assert(s@ =~= dec_digits(n as nat));
        }
        s
    } else {
        let mut s = u64_to_string(n / 10);
        s.append(digit_str(n % 10));
        s
    }
}

/// The product of two positive denominators fits in a `u128` and is positive.
proof fn lemma_den_prod_range(a: int, b: int)
    requires
        1 <= a <= u64::MAX as int,
        1 <= b <= u64::MAX as int,
    ensures
        1 <= a * b <= u128::MAX as int,
{
    assert(1 <= a * b && a * b <= u64::MAX as int * u64::MAX as int) by (nonlinear_arith)
        requires
            1 <= a <= u64::MAX as int,
            1 <= b <= u64::MAX as int,
    ;
}

/// A numerator scaled by a denominator stays strictly inside the `i128` range.
proof fn lemma_scaled_num_bound(n: int, d: int)
    requires
        i64::MIN as int <= n <= i64::MAX as int,
        1 <= d <= u64::MAX as int,
    ensures
        i64::MIN as int * u64::MAX as int <= n * d <= i64::MAX as int * u64::MAX as int,
{
    assert(i64::MIN as int * u64::MAX as int <= n * d <= i64::MAX as int * u64::MAX as int)
        by (nonlinear_arith)
        requires
            i64::MIN as int <= n <= i64::MAX as int,
            1 <= d <= u64::MAX as int,
    ;
}

/// The cross-multiplied numerator of a sum stays inside the `i128` range
/// whenever the product of the denominators fits in a `u64`.
proof fn lemma_sum_terms_range(an: int, ad: int, bn: int, bd: int)
    requires
        i64::MIN as int <= an <= i64::MAX as int,
        i64::MIN as int <= bn <= i64::MAX as int,
        1 <= ad,
        1 <= bd,
        ad * bd <= u64::MAX as int,
    ensures
        i128::MIN as int <= an * bd + bn * ad <= i128::MAX as int,
{
    assert(ad + bd <= ad * bd + 1) by (nonlinear_arith)
        requires
            1 <= ad,
            1 <= bd,
    ;
    assert(i64::MIN as int * (ad + bd) <= an * bd + bn * ad <= i64::MAX as int * (ad + bd))
        by (nonlinear_arith)
        requires
            i64::MIN as int <= an <= i64::MAX as int,
            i64::MIN as int <= bn <= i64::MAX as int,
            1 <= ad,
            1 <= bd,
    ;
    assert(i64::MIN as int * (ad + bd) >= i64::MIN as int * (u64::MAX as int + 1))
        by (nonlinear_arith)
        requires
            1 <= ad,
            1 <= bd,
            ad + bd <= u64::MAX as int + 1,
    ;
    assert(i64::MAX as int * (ad + bd) <= i64::MAX as int * (u64::MAX as int + 1))
        by (nonlinear_arith)
        requires
            1 <= ad,
            1 <= bd,
            ad + bd <= u64::MAX as int + 1,
    ;
}

/// The product of two numerators stays inside the `i128` range.
proof fn lemma_num_prod_bound(a: int, b: int)
    requires
        i64::MIN as int <= a <= i64::MAX as int,
        i64::MIN as int <= b <= i64::MAX as int,
    ensures
        -(i128::MAX as int) <= a * b <= i128::MAX as int,
{
    assert(i64::MIN as int * i64::MIN as int <= i128::MAX as int);
    assert(-(i128::MAX as int) <= a * b <= i128::MAX as int) by (nonlinear_arith)
        requires
            i64::MIN as int <= a <= i64::MAX as int,
            i64::MIN as int <= b <= i64::MAX as int,
    ;
}

} // verus!
