//! Sums, dot products and second moments of integer sequences.

use vstd::prelude::*;

verus! {

/// The sum of the first `n` entries of `s`.
pub open spec fn sum_to(s: Seq<int>, n: int) -> int
    decreases n,
{
    if n <= 0 {
        0
    } else {
        sum_to(s, n - 1) + s[n - 1]
    }
}

/// The sum of all entries of `s`.
pub open spec fn sum(s: Seq<int>) -> int {
    sum_to(s, s.len() as int)
}

/// The dot product of the first `n` entries of `s` and `t`.
pub open spec fn dot_to(s: Seq<int>, t: Seq<int>, n: int) -> int
    decreases n,
{
    if n <= 0 {
        0
    } else {
        dot_to(s, t, n - 1) + s[n - 1] * t[n - 1]
    }
}

/// The dot product of `s` and `t`, over the length of `s`.
pub open spec fn dot(s: Seq<int>, t: Seq<int>) -> int {
    dot_to(s, t, s.len() as int)
}

/// The sum of the squares of the entries of `s`.
pub open spec fn sq_sum(s: Seq<int>) -> int {
    dot(s, s)
}

/// `n^2` times the variance of the `n` entries of `s`.
pub open spec fn spread(s: Seq<int>) -> int {
    s.len() * sq_sum(s) - sum(s) * sum(s)
}

/// `n^2` times the covariance of the `n` entries of `s` with those of `t`.
pub open spec fn covariance(s: Seq<int>, t: Seq<int>) -> int {
    s.len() * dot(s, t) - sum(s) * sum(t)
}

/// Every entry lies in `[0, top]`.
pub open spec fn within(s: Seq<int>, top: int) -> bool {
    forall|i: int| 0 <= i < s.len() ==> 0 <= #[trigger] s[i] <= top
}

/// Sequences that agree on their first `n` entries have the same sum there.
pub proof fn lemma_sum_to_agrees(a: Seq<int>, b: Seq<int>, n: int)
    requires
        forall|i: int| 0 <= i < n ==> a[i] == b[i],
    ensures
        sum_to(a, n) == sum_to(b, n),
    decreases n,
{
    if n > 0 {
        lemma_sum_to_agrees(a, b, n - 1);
    }
}

/// Pairs of sequences that agree on their first `n` entries have the same dot
/// product there.
pub proof fn lemma_dot_to_agrees(a: Seq<int>, b: Seq<int>, c: Seq<int>, d: Seq<int>, n: int)
    requires
        forall|i: int| 0 <= i < n ==> a[i] == c[i] && b[i] == d[i],
    ensures
        dot_to(a, b, n) == dot_to(c, d, n),
    decreases n,
{
    if n > 0 {
        lemma_dot_to_agrees(a, b, c, d, n - 1);
    }
}

/// The sum of a concatenation is the sum of the sums.
pub proof fn lemma_sum_concat(a: Seq<int>, b: Seq<int>)
    ensures
        sum(a + b) == sum(a) + sum(b),
    decreases b.len(),
{
    if b.len() == 0 {
        assert(a + b =~= a);
    } else {
        let c = b.drop_last();
        lemma_sum_concat(a, c);
        lemma_sum_to_agrees(a + b, a + c, (a.len() + c.len()) as int);
        lemma_sum_to_agrees(b, c, c.len() as int);
        assert((a + b)[a.len() + b.len() - 1] == b[b.len() - 1]);
    }
}

/// The sum of squares of a concatenation is the sum of the sums of squares.
pub proof fn lemma_sq_sum_concat(a: Seq<int>, b: Seq<int>)
    ensures
        sq_sum(a + b) == sq_sum(a) + sq_sum(b),
    decreases b.len(),
{
    if b.len() == 0 {
        assert(a + b =~= a);
    } else {
        let c = b.drop_last();
        lemma_sq_sum_concat(a, c);
        lemma_dot_to_agrees(a + b, a + b, a + c, a + c, (a.len() + c.len()) as int);
        lemma_dot_to_agrees(b, b, c, c, c.len() as int);
        assert((a + b)[a.len() + b.len() - 1] == b[b.len() - 1]);
    }
}

/// A sum of `n` entries in `[0, top]` lies in `[0, n * top]`.
pub proof fn lemma_sum_to_bounds(s: Seq<int>, n: int, top: int)
    requires
        0 <= n <= s.len(),
        within(s, top),
    ensures
        0 <= sum_to(s, n) <= n * top,
    decreases n,
{
    if n > 0 {
        lemma_sum_to_bounds(s, n - 1, top);
        assert(n * top == (n - 1) * top + top) by (nonlinear_arith);
    } else {
        assert(n * top == 0) by (nonlinear_arith)
            requires
                n == 0,
        ;
    }
}

/// A dot product of `n` pairs of entries in `[0, top_s]` and `[0, top_t]`
/// lies in `[0, n * (top_s * top_t)]`.
pub proof fn lemma_dot_to_bounds(s: Seq<int>, t: Seq<int>, n: int, top_s: int, top_t: int)
    requires
        0 <= n <= s.len(),
        n <= t.len(),
        within(s, top_s),
        within(t, top_t),
    ensures
        0 <= dot_to(s, t, n) <= n * (top_s * top_t),
    decreases n,
{
    if n > 0 {
        lemma_dot_to_bounds(s, t, n - 1, top_s, top_t);
        let a = s[n - 1];
        let b = t[n - 1];
        assert(0 <= a * b <= top_s * top_t) by (nonlinear_arith)
            requires
                0 <= a <= top_s,
                0 <= b <= top_t,
        ;
        assert(n * (top_s * top_t) == (n - 1) * (top_s * top_t) + top_s * top_t)
            by (nonlinear_arith);
    } else {
        assert(n * (top_s * top_t) == 0) by (nonlinear_arith)
            requires
                n == 0,
        ;
    }
}

/// A number whose square is at most that of a number that is not negative
/// is at most that number.
pub proof fn lemma_square_order(v: int, u: int)
    requires
        0 <= u,
        v * v <= u * u,
    ensures
        v <= u,
{
    if v > u {
        assert(v * v > u * u) by (nonlinear_arith)
            requires
                v > u >= 0,
        ;
    }
}

proof fn lemma_cauchy_step(p: int, x: int, y: int, a: int, b: int)
    requires
        p * p <= x * y,
        0 <= x,
        0 <= y,
    ensures
        (p + a * b) * (p + a * b) <= (x + a * a) * (y + b * b),
{
    let m = a * a;
    let k = b * b;
    let q = a * b;
    let u = x * k + y * m;
    let v = 2 * p * q;
    assert(m >= 0 && k >= 0) by (nonlinear_arith)
        requires
            m == a * a,
            k == b * b,
    ;
    assert(q * q == m * k) by (nonlinear_arith)
        requires
            m == a * a,
            k == b * b,
            q == a * b,
    ;
    assert(u >= 0) by (nonlinear_arith)
        requires
            u == x * k + y * m,
            x >= 0,
            y >= 0,
            m >= 0,
            k >= 0,
    ;
    assert(u * u >= 4 * ((x * y) * (m * k))) by (nonlinear_arith)
        requires
            u == x * k + y * m,
    {
        assert((x * k - y * m) * (x * k - y * m) >= 0);
        assert((x * k + y * m) * (x * k + y * m) == (x * k - y * m) * (x * k - y * m) + 4 * ((x
            * k) * (y * m)));
        assert((x * k) * (y * m) == (x * y) * (m * k));
    }
    assert((x * y) * (m * k) >= (p * p) * (q * q)) by (nonlinear_arith)
        requires
            p * p <= x * y,
            q * q == m * k,
            m >= 0,
            k >= 0,
    {
        assert(m * k >= 0);
    }
    assert(v * v == 4 * ((p * p) * (q * q))) by (nonlinear_arith)
        requires
            v == 2 * p * q,
    ;
    lemma_square_order(v, u);
    assert((p + q) * (p + q) == p * p + v + q * q) by (nonlinear_arith)
        requires
            v == 2 * p * q,
    ;
    assert((x + m) * (y + k) == x * y + u + m * k) by (nonlinear_arith)
        requires
            u == x * k + y * m,
    ;
}

/// The Cauchy-Schwarz inequality on the first `n` entries of two sequences.
pub proof fn lemma_cauchy_schwarz_to(s: Seq<int>, t: Seq<int>, n: int)
    ensures
        dot_to(s, t, n) * dot_to(s, t, n) <= dot_to(s, s, n) * dot_to(t, t, n),
        0 <= dot_to(s, s, n),
        0 <= dot_to(t, t, n),
    decreases n,
{
    if n > 0 {
        lemma_cauchy_schwarz_to(s, t, n - 1);
        let a = s[n - 1];
        let b = t[n - 1];
        lemma_cauchy_step(dot_to(s, t, n - 1), dot_to(s, s, n - 1), dot_to(t, t, n - 1), a, b);
        assert(a * a >= 0 && b * b >= 0) by (nonlinear_arith);
    } else {
        assert(0 * 0 == 0int);
    }
}

/// The entries of `s`, each multiplied by the length and lessened by the sum:
/// `n` times the distance of each entry from the mean.
pub open spec fn centered(s: Seq<int>) -> Seq<int> {
    Seq::new(s.len(), |i: int| s.len() * s[i] - sum(s))
}

proof fn lemma_centered_dot_to(s: Seq<int>, t: Seq<int>, k: int)
    requires
        s.len() == t.len(),
        0 <= k <= s.len(),
    ensures
        dot_to(centered(s), centered(t), k) == (s.len() * s.len()) * dot_to(s, t, k) - (s.len()
            * sum(t)) * sum_to(s, k) - (s.len() * sum(s)) * sum_to(t, k) + k * (sum(s) * sum(t)),
    decreases k,
{
    let n = s.len() as int;
    let ss = sum(s);
    let st = sum(t);
    if k > 0 {
        lemma_centered_dot_to(s, t, k - 1);
        let a = s[k - 1];
        let b = t[k - 1];
        let d = dot_to(s, t, k - 1);
        let ps = sum_to(s, k - 1);
        let pt = sum_to(t, k - 1);
        assert(centered(s)[k - 1] == n * a - ss);
        assert(centered(t)[k - 1] == n * b - st);
        let nn = n * n;
        let ab = a * b;
        let nt = n * st;
        let ns = n * ss;
        let cc = ss * st;
        assert((n * a - ss) * (n * b - st) == nn * ab - nt * a - ns * b + cc) by (nonlinear_arith)
            requires
                nn == n * n,
                ab == a * b,
                nt == n * st,
                ns == n * ss,
                cc == ss * st,
        {
            assert((n * a) * (n * b) == (n * n) * (a * b));
            assert((n * a) * st == (n * st) * a);
            assert(ss * (n * b) == (n * ss) * b);
        }
        assert(nn * (d + ab) == nn * d + nn * ab) by (nonlinear_arith);
        assert(nt * (ps + a) == nt * ps + nt * a) by (nonlinear_arith);
        assert(ns * (pt + b) == ns * pt + ns * b) by (nonlinear_arith);
        assert(k * cc == (k - 1) * cc + cc) by (nonlinear_arith);
    } else {
        assert(k * (ss * st) == 0) by (nonlinear_arith)
            requires
                k == 0,
        ;
    }
}

/// The sum of the entries of `centered(s)` is zero.
pub proof fn lemma_centered_sums_to_zero(s: Seq<int>)
    ensures
        sum(centered(s)) == 0,
{
    lemma_centered_sum_to(s, s.len() as int);
    assert(s.len() * sum(s) - s.len() * sum(s) == 0);
}

proof fn lemma_centered_sum_to(s: Seq<int>, k: int)
    requires
        0 <= k <= s.len(),
    ensures
        sum_to(centered(s), k) == s.len() * sum_to(s, k) - k * sum(s),
    decreases k,
{
    let n = s.len() as int;
    let ss = sum(s);
    if k > 0 {
        lemma_centered_sum_to(s, k - 1);
        let a = s[k - 1];
        let ps = sum_to(s, k - 1);
        assert(centered(s)[k - 1] == n * a - ss);
        assert(n * ps - (k - 1) * ss + (n * a - ss) == n * (ps + a) - k * ss) by (nonlinear_arith);
    } else {
        assert(n * 0 - k * ss == 0) by (nonlinear_arith)
            requires
                k == 0,
        ;
    }
}

/// The dot product of two centered sequences is the length times the
/// covariance.
pub proof fn lemma_centered_dot(s: Seq<int>, t: Seq<int>)
    requires
        s.len() == t.len(),
    ensures
        dot(centered(s), centered(t)) == s.len() * covariance(s, t),
{
    let n = s.len() as int;
    lemma_centered_dot_to(s, t, n);
    let c = dot(s, t);
    let ss = sum(s);
    let st = sum(t);
    assert((n * n) * c - (n * st) * ss - (n * ss) * st + n * (ss * st) == n * (n * c - ss * st))
        by (nonlinear_arith);
}

/// The variance is not negative, and the squared covariance is at most the
/// product of the variances: a correlation lies in `[-1, 1]`.
pub proof fn lemma_covariance_bound(s: Seq<int>, t: Seq<int>)
    requires
        s.len() == t.len(),
    ensures
        0 <= spread(s),
        0 <= spread(t),
        covariance(s, t) * covariance(s, t) <= spread(s) * spread(t),
{
    let n = s.len() as int;
    let a = centered(s);
    let b = centered(t);
    lemma_centered_dot(s, t);
    lemma_centered_dot(s, s);
    lemma_centered_dot(t, t);
    lemma_cauchy_schwarz_to(a, b, n);
    let c = covariance(s, t);
    let x = spread(s);
    let y = spread(t);
    assert(covariance(s, s) == x);
    assert(covariance(t, t) == y);
    if n == 0 {
        assert(x == 0 && y == 0 && c == 0) by (nonlinear_arith)
            requires
                n == 0,
                x == n * sq_sum(s) - sum(s) * sum(s),
                y == n * sq_sum(t) - sum(t) * sum(t),
                c == n * dot(s, t) - sum(s) * sum(t),
                sum(s) == 0,
                sum(t) == 0,
        ;
    } else {
        assert(x >= 0 && y >= 0 && c * c <= x * y) by (nonlinear_arith)
            requires
                n >= 1,
                (n * c) * (n * c) <= (n * x) * (n * y),
                0 <= n * x,
                0 <= n * y,
        {
            assert((n * c) * (n * c) == (n * n) * (c * c));
            assert((n * x) * (n * y) == (n * n) * (x * y));
        }
    }
}

} // verus!
