//! Integer polynomials: the characteristic polynomial of a rule, and the
//! polynomial that a window of digits spells out.

use vstd::arithmetic::power::{lemma1_pow, lemma_pow0, lemma_pow1, lemma_pow_adds, pow};
use vstd::prelude::*;

use crate::Value;

verus! {

/// `Σ f(p)·x^(p-lo)` over `lo <= p < hi`.
pub open spec fn poly(f: spec_fn(int) -> int, x: int, lo: int, hi: int) -> int
    decreases hi - lo,
{
    if hi <= lo {
        0
    } else {
        poly(f, x, lo, hi - 1) + f(hi - 1) * pow(x, (hi - 1 - lo) as nat)
    }
}

/// `r[0]·x^(n-1) + r[1]·x^(n-2) + … + r[n-1]`, in Horner's form.
pub open spec fn rule_poly(r: Seq<Value>, x: int) -> int
    decreases r.len(),
{
    if r.len() == 0 {
        0
    } else {
        rule_poly(r.drop_last(), x) * x + r.last()
    }
}

/// The characteristic polynomial `x^n - r[0]·x^(n-1) - … - r[n-1]` of a
/// rule; the base of the numeral system is its root.
pub open spec fn char_poly(r: Seq<Value>, x: int) -> int {
    pow(x, r.len()) - rule_poly(r, x)
}

/// Cutting a window in two: the upper part is shifted up by `mid - lo`.
pub proof fn lemma_poly_split(f: spec_fn(int) -> int, x: int, lo: int, mid: int, hi: int)
    requires
        lo <= mid <= hi,
    ensures
        poly(f, x, lo, hi) == poly(f, x, lo, mid) + pow(x, (mid - lo) as nat) * poly(f, x, mid, hi),
    decreases hi - mid,
{
    if hi > mid {
        lemma_poly_split(f, x, lo, mid, hi - 1);
        lemma_pow_adds(x, (mid - lo) as nat, (hi - 1 - mid) as nat);
        let sh = pow(x, (mid - lo) as nat);
        let a = poly(f, x, mid, hi - 1);
        let t = f(hi - 1);
        let e = pow(x, (hi - 1 - mid) as nat);
        assert(sh * (a + t * e) == sh * a + t * (sh * e)) by (nonlinear_arith);
    }
}

/// A window of zero coefficients spells zero.
pub proof fn lemma_poly_zero(f: spec_fn(int) -> int, x: int, lo: int, hi: int)
    requires
        forall|p: int| lo <= p < hi ==> #[trigger] f(p) == 0,
    ensures
        poly(f, x, lo, hi) == 0,
    decreases hi - lo,
{
    if hi > lo {
        lemma_poly_zero(f, x, lo, hi - 1);
    }
}

/// Coefficient-wise sums give sums of polynomials.
pub proof fn lemma_poly_add(
    f: spec_fn(int) -> int,
    g: spec_fn(int) -> int,
    h: spec_fn(int) -> int,
    x: int,
    lo: int,
    hi: int,
)
    requires
        forall|p: int| lo <= p < hi ==> #[trigger] f(p) == g(p) + h(p),
    ensures
        poly(f, x, lo, hi) == poly(g, x, lo, hi) + poly(h, x, lo, hi),
    decreases hi - lo,
{
    if hi > lo {
        lemma_poly_add(f, g, h, x, lo, hi - 1);
        let e = pow(x, (hi - 1 - lo) as nat);
        assert(f(hi - 1) == g(hi - 1) + h(hi - 1));
        assert((g(hi - 1) + h(hi - 1)) * e == g(hi - 1) * e + h(hi - 1) * e) by (nonlinear_arith);
    }
}

/// A single non-zero coefficient at `m`.
pub proof fn lemma_poly_point(f: spec_fn(int) -> int, x: int, lo: int, m: int, hi: int)
    requires
        lo <= m < hi,
        forall|p: int| lo <= p < hi && p != m ==> #[trigger] f(p) == 0,
    ensures
        poly(f, x, lo, hi) == f(m) * pow(x, (m - lo) as nat),
{
    lemma_poly_split(f, x, lo, m, hi);
    lemma_poly_zero(f, x, lo, m);
    lemma_poly_split(f, x, m, m + 1, hi);
    lemma_poly_zero(f, x, m + 1, hi);
    lemma_poly_zero(f, x, m, m);
    lemma_pow0(x);
    assert(poly(f, x, m, m + 1) == f(m));
    assert(poly(f, x, m, hi) == f(m));
    let sh = pow(x, (m - lo) as nat);
    assert(sh * f(m) == f(m) * sh) by (nonlinear_arith);
}

/// The coefficients of a rule, laid out from `a` upward from last to first
/// and scaled by `s`, spell `s` times the rule's polynomial.
pub proof fn lemma_rule_poly_window(r: Seq<Value>, g: spec_fn(int) -> int, x: int, a: int, s: int)
    requires
        forall|j: int| 0 <= j < r.len() ==> #[trigger] g(a + j) == s * r[r.len() - 1 - j],
    ensures
        poly(g, x, a, a + r.len()) == s * rule_poly(r, x),
    decreases r.len(),
{
    let n = r.len() as int;
    if n == 0 {
        assert(poly(g, x, a, a) == 0);
    } else {
        let q = r.drop_last();
        assert forall|j: int| 0 <= j < q.len() implies #[trigger] g((a + 1) + j) == s * q[q.len() - 1 - j] by {
            assert(g(a + (j + 1)) == s * r[n - 1 - (j + 1)]);
        }
        lemma_rule_poly_window(q, g, x, a + 1, s);
        lemma_poly_split(g, x, a, a + 1, a + n);
        assert(g(a + 0) == s * r[n - 1]);
        lemma_pow0(x);
        lemma_pow1(x);
        assert(poly(g, x, a, a) == 0);
        assert(poly(g, x, a, a + 1) == s * r.last());
        let p = rule_poly(q, x);
        let l = r.last() as int;
        assert(s * l + x * (s * p) == s * (p * x + l)) by (nonlinear_arith);
    }
}

/// The change that carrying at `c` makes to the digits, spelled out on any
/// window that holds positions `c - n ..= c`, is `x^(c-n-lo)` times the
/// characteristic polynomial.
pub proof fn lemma_carry_delta(r: Seq<Value>, h: spec_fn(int) -> int, x: int, lo: int, hi: int, c: int)
    requires
        lo <= c - r.len(),
        c < hi,
        forall|p: int|
            lo <= p < hi ==> #[trigger] h(p) == (if p == c { 1int } else { 0int }) - (if c - r.len()
                <= p < c {
                r[c - 1 - p] as int
            } else {
                0int
            }),
    ensures
        poly(h, x, lo, hi) == pow(x, (c - r.len() - lo) as nat) * char_poly(r, x),
{
    let n = r.len() as int;
    lemma_poly_split(h, x, lo, c - n, hi);
    lemma_poly_zero(h, x, lo, c - n);
    lemma_poly_split(h, x, c - n, c, hi);
    lemma_poly_point(h, x, c, c, hi);
    lemma_pow0(x);
    assert forall|j: int| 0 <= j < n implies #[trigger] h((c - n) + j) == -1 * r[n - 1 - j] by {
        assert(c - 1 - ((c - n) + j) == n - 1 - j);
    }
    lemma_rule_poly_window(r, h, x, c - n, -1);
    assert(h(c) == 1);
    assert(poly(h, x, c, hi) == 1);
    assert(poly(h, x, c - n, c) == -1 * rule_poly(r, x));
    assert((c - (c - n)) as nat == r.len());
    let pn = pow(x, r.len());
    assert(poly(h, x, c - n, hi) == poly(h, x, c - n, c) + pow(x, (c - (c - n)) as nat) * poly(h, x, c, hi));
    assert(pn * 1 == pn) by (nonlinear_arith);
    assert(poly(h, x, c - n, hi) == char_poly(r, x));
    assert(poly(h, x, lo, c - n) == 0);
}

/// At `x = 1` a window of non-negative coefficients spells their sum, which
/// is non-negative.
pub proof fn lemma_poly_at_one_nonneg(f: spec_fn(int) -> int, lo: int, hi: int)
    requires
        forall|p: int| lo <= p < hi ==> #[trigger] f(p) >= 0,
    ensures
        poly(f, 1, lo, hi) >= 0,
    decreases hi - lo,
{
    if hi > lo {
        lemma_poly_at_one_nonneg(f, lo, hi - 1);
        lemma1_pow((hi - 1 - lo) as nat);
    }
}

/// At `x = 1` the rule's polynomial is the sum of its coefficients: with
/// positive coefficients, at least their count and at least the first.
pub proof fn lemma_rule_poly_at_one(r: Seq<Value>)
    requires
        forall|i: int| 0 <= i < r.len() ==> #[trigger] r[i] > 0,
    ensures
        rule_poly(r, 1) >= r.len(),
        r.len() >= 1 ==> rule_poly(r, 1) >= r[0],
    decreases r.len(),
{
    if r.len() > 0 {
        let q = r.drop_last();
        assert forall|i: int| 0 <= i < q.len() implies #[trigger] q[i] > 0 by {
            assert(q[i] == r[i]);
        }
        lemma_rule_poly_at_one(q);
        assert(r[r.len() - 1] > 0);
        if r.len() > 1 {
            assert(q[0] == r[0]);
        }
    }
}


/// One more power: `x^(e+1) = x^e · x`.
proof fn lemma_pow_step(x: int, e: nat)
    ensures
        pow(x, e + 1) == pow(x, e) * x,
{
    lemma_pow_adds(x, e, 1);
    lemma_pow1(x);
}

/// With non-negative coefficients and `x >= 0`, the leading term bounds
/// the rule's polynomial from below.
proof fn lemma_rule_poly_lower(r: Seq<Value>, x: int)
    requires
        r.len() >= 1,
        x >= 0,
    ensures
        rule_poly(r, x) >= r[0] * pow(x, (r.len() - 1) as nat),
    decreases r.len(),
{
    let n = r.len() as int;
    let q = r.drop_last();
    if n == 1 {
        lemma_pow0(x);
        assert(rule_poly(q, x) == 0);
        assert(rule_poly(q, x) * x == 0) by (nonlinear_arith)
            requires rule_poly(q, x) == 0;
    } else {
        lemma_rule_poly_lower(q, x);
        assert(q[0] == r[0]);
        lemma_pow_step(x, (n - 2) as nat);
        let p = rule_poly(q, x);
        let lead = r[0] * pow(x, (n - 2) as nat);
        assert(p * x >= lead * x) by (nonlinear_arith)
            requires p >= lead, x >= 0;
        let a = r[0] as int;
        let e = pow(x, (n - 2) as nat);
        assert((a * e) * x == a * (e * x)) by (nonlinear_arith);
    }
}

/// With coefficients below `x`, the rule's polynomial stays below `x^n`.
proof fn lemma_rule_poly_upper(r: Seq<Value>, x: int)
    requires
        x >= 1,
        forall|i: int| 0 <= i < r.len() ==> #[trigger] r[i] <= x - 1,
    ensures
        rule_poly(r, x) <= pow(x, r.len()) - 1,
    decreases r.len(),
{
    let n = r.len() as int;
    if n == 0 {
        lemma_pow0(x);
    } else {
        let q = r.drop_last();
        assert forall|i: int| 0 <= i < q.len() implies #[trigger] q[i] <= x - 1 by {
            assert(q[i] == r[i]);
        }
        lemma_rule_poly_upper(q, x);
        lemma_pow_step(x, (n - 1) as nat);
        let p = rule_poly(q, x);
        let e = pow(x, (n - 1) as nat);
        assert(r[n - 1] <= x - 1);
        assert(p * x <= (e - 1) * x) by (nonlinear_arith)
            requires p <= e - 1, x >= 1;
        assert((e - 1) * x == e * x - x) by (nonlinear_arith);
    }
}

/// The characteristic polynomial of a rule is at most 0 at `r[0]` and
/// positive at `r[0] + 1`: the base, its root, lies in `[r[0], r[0] + 1)`.
pub proof fn lemma_base_bracket(r: Seq<Value>)
    requires
        r.len() >= 1,
        forall|i: int, j: int| 0 <= i <= j < r.len() ==> r[i] >= r[j],
    ensures
        char_poly(r, r[0] as int) <= 0,
        char_poly(r, r[0] + 1) > 0,
{
    let n = r.len() as int;
    let x = r[0] as int;
    lemma_rule_poly_lower(r, x);
    lemma_pow_step(x, (n - 1) as nat);
    assert(r[0] * pow(x, (n - 1) as nat) == pow(x, (n - 1) as nat) * x) by (nonlinear_arith)
        requires x == r[0];
    assert forall|i: int| 0 <= i < r.len() implies #[trigger] r[i] <= (x + 1) - 1 by {
        assert(r[0] >= r[i]);
    }
    lemma_rule_poly_upper(r, x + 1);
}


/// A single-digit rule `[k]` has base exactly `k`: `k` is the root of
/// `x - k`.
pub proof fn lemma_single_digit_base(k: Value)
    ensures
        char_poly(seq![k], k as int) == 0,
{
    let r = seq![k];
    lemma_pow1(k as int);
    assert(r.drop_last() =~= Seq::<Value>::empty());
    assert(rule_poly(r.drop_last(), k as int) == 0);
    assert(0 * (k as int) == 0);
}

} // verus!
