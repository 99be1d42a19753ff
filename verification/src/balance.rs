//! Maximal evenness of Euclidean rhythms: every run of consecutive steps
//! holds as many hits as any other run of the same length, give or take one.
use vstd::prelude::*;
use crate::euclid::{distribute, euclidean_pattern, repeat};
use crate::laws::{hits, lemma_constant_hits, lemma_distribute_len_hits, lemma_hits_concat};

verus! {

/// The number of hits among the first `j` steps of `x`.
pub open spec fn prefix_hits(x: Seq<bool>, j: int) -> nat {
    hits(x.subrange(0, j))
}

/// The run of `len` consecutive steps of the cyclic pattern `x` that begins
/// at step `start`, wrapping round from the last step to the first.
pub open spec fn cyclic_window(x: Seq<bool>, start: int, len: int) -> Seq<bool> {
    (x + x).subrange(start, start + len)
}

/// The hits of `x` lie on the grid of slope `hits / len` with offset `c`:
/// for every `j`, the first `j` steps hold `(j * hits + c) / len` hits.
spec fn on_grid(x: Seq<bool>, c: int) -> bool {
    &&& x.len() > 0
    &&& 0 <= c < x.len()
    &&& forall|j: int|
        0 <= j <= x.len() ==> #[trigger] prefix_hits(x, j) == (j * hits(x) + c) / (
        x.len() as int)
}

/// The pattern `w` with each hit replaced by the steps `t` and each rest by
/// the steps `f`.
pub open spec fn subst(w: Seq<bool>, t: Seq<bool>, f: Seq<bool>) -> Seq<bool>
    decreases w.len(),
{
    if w.len() == 0 {
        Seq::empty()
    } else {
        subst(w.drop_last(), t, f) + if w.last() {
            t
        } else {
            f
        }
    }
}

proof fn lemma_prefix_step(x: Seq<bool>, j: int)
    requires
        0 <= j < x.len(),
    ensures
        prefix_hits(x, j + 1) == prefix_hits(x, j) + if x[j] { 1nat } else { 0nat },
{
    assert(x.subrange(0, j + 1).drop_last() =~= x.subrange(0, j));
}

proof fn lemma_prefix_concat(u: Seq<bool>, v: Seq<bool>, j: int)
    requires
        0 <= j <= u.len(),
    ensures
        prefix_hits(u + v, j) == prefix_hits(u, j),
{
    assert((u + v).subrange(0, j) =~= u.subrange(0, j));
}

proof fn lemma_prefix_whole(x: Seq<bool>)
    ensures
        prefix_hits(x, x.len() as int) == hits(x),
{
    assert(x.subrange(0, x.len() as int) =~= x);
}

proof fn lemma_hits_bound(x: Seq<bool>)
    ensures
        hits(x) <= x.len(),
    decreases x.len(),
{
    if x.len() > 0 {
        lemma_hits_bound(x.drop_last());
    }
}

proof fn lemma_subst_concat(u: Seq<bool>, v: Seq<bool>, t: Seq<bool>, f: Seq<bool>)
    ensures
        subst(u + v, t, f) == subst(u, t, f) + subst(v, t, f),
    decreases v.len(),
{
    if v.len() == 0 {
        assert(u + v =~= u);
        assert(subst(u, t, f) + subst(v, t, f) =~= subst(u, t, f));
    } else {
        lemma_subst_concat(u, v.drop_last(), t, f);
        assert((u + v).drop_last() =~= u + v.drop_last());
        assert((u + v).last() == v.last());
        assert(subst(u + v, t, f) =~= subst(u, t, f) + subst(v, t, f));
    }
}

proof fn lemma_subst_repeat(w: Seq<bool>, k: nat, t: Seq<bool>, f: Seq<bool>)
    ensures
        subst(repeat(w, k), t, f) == repeat(subst(w, t, f), k),
    decreases k,
{
    if k == 0 {
        assert(subst(Seq::<bool>::empty(), t, f) == Seq::<bool>::empty());
    } else {
        lemma_subst_repeat(w, (k - 1) as nat, t, f);
        lemma_subst_concat(repeat(w, (k - 1) as nat), w, t, f);
    }
}

proof fn lemma_subst_single(v: bool, t: Seq<bool>, f: Seq<bool>)
    ensures
        subst(seq![v], t, f) == if v { t } else { f },
{
    let w: Seq<bool> = seq![v];
    assert(w.drop_last() =~= Seq::<bool>::empty());
    assert(subst(Seq::<bool>::empty(), t, f) == Seq::<bool>::empty());
    assert(Seq::<bool>::empty() + (if v { t } else { f }) =~= (if v { t } else { f }));
}

/// Bjorklund's distribution commutes with replacing hits and rests by words.
proof fn lemma_distribute_subst(
    g: Seq<bool>,
    a: nat,
    r: Seq<bool>,
    b: nat,
    t: Seq<bool>,
    f: Seq<bool>,
)
    ensures
        distribute(subst(g, t, f), a, subst(r, t, f), b) == subst(distribute(g, a, r, b), t, f),
    decreases a + b,
{
    if a == 0 || b <= 1 {
        lemma_subst_repeat(g, a, t, f);
        lemma_subst_repeat(r, b, t, f);
        lemma_subst_concat(repeat(g, a), repeat(r, b), t, f);
    } else {
        lemma_subst_concat(g, r, t, f);
        if a > b {
            lemma_distribute_subst(g + r, b, g, (a - b) as nat, t, f);
        } else {
            lemma_distribute_subst(g + r, a, r, (b - a) as nat, t, f);
        }
    }
}

proof fn lemma_short_hits()
    ensures
        hits(seq![true, false]) == 1,
        hits(seq![true]) == 1,
        hits(seq![false]) == 0,
{
    let e = Seq::<bool>::empty();
    assert(hits(e) == 0);
    assert(seq![true].drop_last() =~= e);
    assert(seq![false].drop_last() =~= e);
    assert(hits(seq![true]) == 1);
    assert(seq![true, false].drop_last() =~= seq![true]);
    assert(seq![true, false].last() == false);
}

/// Integer division by `d` of `q * d + r`, for `0 <= r < d`, is `q`.
proof fn lemma_div_of(x: int, d: int, q: int, r: int)
    requires
        d > 0,
        0 <= r < d,
        x == q * d + r,
    ensures
        x / d == q,
{
    vstd::arithmetic::div_mod::lemma_fundamental_div_mod_converse(x, d, q, r);
}

/// Replacing each hit of a grid pattern `w` by "hit, rest" and each rest by
/// the single step `f_hit` gives a grid pattern again, prefix by prefix.
proof fn lemma_subst_grid_prefix(w: Seq<bool>, c: int, f_hit: bool, i: int)
    requires
        on_grid(w, c),
        0 <= i <= w.len(),
    ensures
        ({
            let n = w.len() as int;
            let h = hits(w) as int;
            let big_h = if f_hit { n } else { h };
            let c2 = if f_hit { n + h - 1 - c } else { h + c };
            let y = subst(w.subrange(0, i), seq![true, false], seq![f_hit]);
            &&& y.len() == i + prefix_hits(w, i)
            &&& hits(y) == if f_hit { i } else { prefix_hits(w, i) as int }
            &&& forall|j: int|
                0 <= j <= y.len() ==> #[trigger] prefix_hits(y, j) == (j * big_h + c2) / (n + h)
        }),
    decreases i,
{
    let n = w.len() as int;
    let h = hits(w) as int;
    let nn = n + h;
    let big_h = if f_hit { n } else { h };
    let c2 = if f_hit { n + h - 1 - c } else { h + c };
    let t: Seq<bool> = seq![true, false];
    let f: Seq<bool> = seq![f_hit];
    lemma_hits_bound(w);
    lemma_short_hits();
    let e = Seq::<bool>::empty();
    assert(hits(e) == 0);
    if i == 0 {
        assert(w.subrange(0, 0) =~= e);
        let y = subst(w.subrange(0, i), t, f);
        assert(y == e);
        assert forall|j: int| 0 <= j <= y.len() implies #[trigger] prefix_hits(y, j) == (j
            * big_h + c2) / nn by {
            assert(j == 0);
            assert(j * big_h == 0) by (nonlinear_arith)
                requires
                    j == 0,
            ;
            assert(y.subrange(0, 0) =~= e);
            lemma_div_of(j * big_h + c2, nn, 0, c2);
        }
    } else {
        let k = i - 1;
        lemma_subst_grid_prefix(w, c, f_hit, k);
        let wk = w.subrange(0, k);
        let wi = w.subrange(0, i);
        let yk = subst(wk, t, f);
        assert(wi.drop_last() =~= wk);
        assert(wi.last() == w[k]);
        let img = if w[k] { t } else { f };
        let y = subst(wi, t, f);
        assert(y == yk + img);
        lemma_hits_concat(yk, img);
        lemma_prefix_step(w, k);
        assert(prefix_hits(w, k) == (k * h + c) / n);
        assert(prefix_hits(w, i) == (i * h + c) / n);
        let q = prefix_hits(w, k) as int;
        let x0 = k * h + c;
        vstd::arithmetic::div_mod::lemma_fundamental_div_mod(x0, n);
        vstd::arithmetic::div_mod::lemma_mod_pos_bound(x0, n);
        let m = x0 % n;
        assert(n * q == x0 - m);
        assert(i * h + c == x0 + h) by (nonlinear_arith)
            requires
                i == k + 1,
                x0 == k * h + c,
        ;
        assert((q + 1) * n == n * q + n) by (nonlinear_arith);
        if m + h >= n {
            lemma_div_of(x0 + h, n, q + 1, m + h - n);
        } else {
            lemma_div_of(x0 + h, n, q, m + h);
        }
        assert(w[k] <==> m + h >= n);
        let jj = yk.len() as int;
        assert(jj == k + q);
        assert forall|j: int| 0 <= j <= y.len() implies #[trigger] prefix_hits(y, j) == (j
            * big_h + c2) / nn by {
            if j <= jj {
                lemma_prefix_concat(yk, img, j);
            } else {
                lemma_prefix_concat(yk, img, jj);
                lemma_prefix_step(y, jj);
                assert(y[jj] == img[0]);
                if f_hit {
                    assert(jj * n + c2 == nn * k + (nn - 1 - m)) by (nonlinear_arith)
                        requires
                            n * q == x0 - m,
                            x0 == k * h + c,
                            jj == k + q,
                            c2 == n + h - 1 - c,
                            nn == n + h,
                    ;
                    lemma_div_of(jj * n + c2, nn, k, nn - 1 - m);
                    assert((jj + 1) * n == jj * n + n) by (nonlinear_arith);
                    assert((jj + 2) * n == jj * n + 2 * n) by (nonlinear_arith);
                    assert((k + 1) * nn == k * nn + nn) by (nonlinear_arith);
                    if j == jj + 1 {
                        lemma_div_of(j * n + c2, nn, k + 1, n - 1 - m);
                    } else {
                        assert(j == jj + 2);
                        lemma_prefix_step(y, jj + 1);
                        assert(y[jj + 1] == img[1]);
                        lemma_div_of(j * n + c2, nn, k + 1, 2 * n - 1 - m);
                    }
                } else {
                    assert(jj * h + c2 == nn * q + (m + h)) by (nonlinear_arith)
                        requires
                            n * q == x0 - m,
                            x0 == k * h + c,
                            jj == k + q,
                            c2 == h + c,
                            nn == n + h,
                    ;
                    lemma_div_of(jj * h + c2, nn, q, m + h);
                    assert((jj + 1) * h == jj * h + h) by (nonlinear_arith);
                    assert((jj + 2) * h == jj * h + 2 * h) by (nonlinear_arith);
                    assert((q + 1) * nn == q * nn + nn) by (nonlinear_arith);
                    if j == jj + 1 {
                        if w[k] {
                            lemma_div_of(j * h + c2, nn, q + 1, m + h - n);
                        } else {
                            lemma_div_of(j * h + c2, nn, q, m + 2 * h);
                        }
                    } else {
                        assert(j == jj + 2);
                        lemma_prefix_step(y, jj + 1);
                        assert(y[jj + 1] == img[1]);
                        lemma_div_of(j * h + c2, nn, q + 1, m + 2 * h - n);
                    }
                }
            }
        }
    }
}

proof fn lemma_subst_grid(w: Seq<bool>, c: int, f_hit: bool)
    requires
        on_grid(w, c),
    ensures
        ({
            let n = w.len() as int;
            let h = hits(w) as int;
            let y = subst(w, seq![true, false], seq![f_hit]);
            &&& y.len() == n + h
            &&& hits(y) == if f_hit { n } else { h }
            &&& on_grid(y, if f_hit { n + h - 1 - c } else { h + c })
        }),
{
    let n = w.len() as int;
    lemma_subst_grid_prefix(w, c, f_hit, n);
    assert(w.subrange(0, n) =~= w);
    lemma_prefix_whole(w);
}

proof fn lemma_repeat_single(v: bool, k: nat)
    ensures
        repeat(seq![v], k) =~= Seq::new(k, |i: int| v),
    decreases k,
{
    if k > 0 {
        lemma_repeat_single(v, (k - 1) as nat);
    }
}

/// A run of `k` equal steps `v` lies on the grid with offset 0.
proof fn lemma_constant_on_grid(k: nat, v: bool)
    requires
        k > 0,
    ensures
        on_grid(Seq::new(k, |i: int| v), 0),
        hits(Seq::new(k, |i: int| v)) == if v { k } else { 0 },
{
    let x = Seq::new(k, |i: int| v);
    lemma_constant_hits(k, v);
    assert forall|j: int| 0 <= j <= x.len() implies #[trigger] prefix_hits(x, j) == (j * hits(
        x,
    ) + 0) / (x.len() as int) by {
        assert(x.subrange(0, j) =~= Seq::new(j as nat, |i: int| v));
        lemma_constant_hits(j as nat, v);
        if v {
            lemma_div_of(j * k, k as int, j, 0);
        } else {
            assert(j * 0 == 0) by (nonlinear_arith);
            lemma_div_of(0, k as int, 0, 0);
        }
    }
}

/// The Euclidean pattern with `a` pulses and `b` rests lies on a grid.
proof fn lemma_distribute_on_grid(a: nat, b: nat) -> (c: int)
    requires
        a > 0,
    ensures
        on_grid(distribute(seq![true], a, seq![false], b), c),
    decreases a + b,
{
    let x = distribute(seq![true], a, seq![false], b);
    let tf: Seq<bool> = seq![true, false];
    lemma_repeat_single(true, a);
    lemma_repeat_single(false, b);
    if b == 0 {
        assert(x =~= Seq::new(a, |i: int| true));
        lemma_constant_on_grid(a, true);
        0
    } else if b == 1 {
        let ts = Seq::new(a, |i: int| true);
        assert(x =~= ts + seq![false]);
        lemma_constant_hits(a, true);
        lemma_short_hits();
        lemma_hits_concat(ts, seq![false]);
        let n = (a + 1) as int;
        assert forall|j: int| 0 <= j <= x.len() implies #[trigger] prefix_hits(x, j) == (j
            * hits(x) + a) / n by {
            if j <= a {
                assert(x.subrange(0, j) =~= Seq::new(j as nat, |i: int| true));
                lemma_constant_hits(j as nat, true);
                assert(j * a + a == j * n + (a - j)) by (nonlinear_arith)
                    requires
                        n == a + 1,
                ;
                lemma_div_of(j * a + a, n, j, a - j);
            } else {
                lemma_prefix_whole(x);
                assert(j * a + a == a * n + a) by (nonlinear_arith)
                    requires
                        n == a + 1,
                        j == n,
                ;
                lemma_div_of(j * a + a, n, a as int, a as int);
            }
        }
        a as int
    } else if a > b {
        let c0 = lemma_distribute_on_grid(b, (a - b) as nat);
        let w = distribute(seq![true], b, seq![false], (a - b) as nat);
        lemma_distribute_len_hits(seq![true], b, seq![false], (a - b) as nat);
        lemma_short_hits();
        assert(seq![true].len() == 1 && seq![false].len() == 1);
        assert(w.len() == a) by (nonlinear_arith)
            requires
                w.len() == b * 1 + (a - b) * 1,
        ;
        assert(hits(w) == b) by (nonlinear_arith)
            requires
                hits(w) == b * 1 + (a - b) * 0,
        ;
        assert(seq![true] + seq![false] =~= tf);
        lemma_subst_single(true, tf, seq![true]);
        lemma_subst_single(false, tf, seq![true]);
        lemma_distribute_subst(seq![true], b, seq![false], (a - b) as nat, tf, seq![true]);
        lemma_subst_grid(w, c0, true);
        a + b - 1 - c0
    } else {
        let c0 = lemma_distribute_on_grid(a, (b - a) as nat);
        let w = distribute(seq![true], a, seq![false], (b - a) as nat);
        lemma_distribute_len_hits(seq![true], a, seq![false], (b - a) as nat);
        lemma_short_hits();
        assert(seq![true].len() == 1 && seq![false].len() == 1);
        assert(w.len() == b) by (nonlinear_arith)
            requires
                w.len() == a * 1 + (b - a) * 1,
        ;
        assert(hits(w) == a) by (nonlinear_arith)
            requires
                hits(w) == a * 1 + (b - a) * 0,
        ;
        assert(seq![true] + seq![false] =~= tf);
        lemma_subst_single(true, tf, seq![false]);
        lemma_subst_single(false, tf, seq![false]);
        lemma_distribute_subst(seq![true], a, seq![false], (b - a) as nat, tf, seq![false]);
        lemma_subst_grid(w, c0, false);
        a + c0
    }
}

proof fn lemma_euclidean_on_grid(pulses: nat, steps: nat) -> (c: int)
    requires
        steps > 0,
    ensures
        on_grid(euclidean_pattern(pulses, steps), c),
        hits(euclidean_pattern(pulses, steps)) == if pulses < steps { pulses } else { steps },
{
    crate::laws::euclidean_length_and_density(pulses, steps);
    if pulses == 0 {
        lemma_constant_on_grid(steps, false);
        0
    } else if pulses >= steps {
        lemma_constant_on_grid(steps, true);
        0
    } else {
        lemma_distribute_on_grid(pulses, (steps - pulses) as nat)
    }
}

/// On a grid pattern, the first `j` steps of two laps of the cycle hold
/// `(j * hits + c) / len` hits.
proof fn lemma_grid_two_laps(x: Seq<bool>, c: int, j: int)
    requires
        on_grid(x, c),
        0 <= j <= 2 * x.len(),
    ensures
        prefix_hits(x + x, j) == (j * hits(x) + c) / (x.len() as int),
{
    let n = x.len() as int;
    let h = hits(x) as int;
    if j <= n {
        lemma_prefix_concat(x, x, j);
    } else {
        assert((x + x).subrange(0, j) =~= x + x.subrange(0, j - n));
        lemma_hits_concat(x, x.subrange(0, j - n));
        assert(prefix_hits(x, j - n) == ((j - n) * h + c) / n);
        let y = (j - n) * h + c;
        vstd::arithmetic::div_mod::lemma_fundamental_div_mod(y, n);
        vstd::arithmetic::div_mod::lemma_mod_pos_bound(y, n);
        let q = y / n;
        let r = y % n;
        assert(j * h + c == (q + h) * n + r) by (nonlinear_arith)
            requires
                y == (j - n) * h + c,
                y == n * q + r,
        ;
        lemma_div_of(j * h + c, n, q + h, r);
    }
}

/// Rounding down a sum loses at most one compared with rounding down its
/// parts: `(u + v) / d` is `u / d + v / d` or one more.
proof fn lemma_div_sum(u: int, v: int, d: int)
    requires
        d > 0,
        u >= 0,
        v >= 0,
    ensures
        (u + v) / d == u / d + v / d || (u + v) / d == u / d + v / d + 1,
{
    vstd::arithmetic::div_mod::lemma_fundamental_div_mod(u, d);
    vstd::arithmetic::div_mod::lemma_fundamental_div_mod(v, d);
    vstd::arithmetic::div_mod::lemma_mod_pos_bound(u, d);
    vstd::arithmetic::div_mod::lemma_mod_pos_bound(v, d);
    let qu = u / d;
    let qv = v / d;
    let ru = u % d;
    let rv = v % d;
    assert(u + v == (qu + qv) * d + (ru + rv)) by (nonlinear_arith)
        requires
            u == d * qu + ru,
            v == d * qv + rv,
    ;
    if ru + rv < d {
        lemma_div_of(u + v, d, qu + qv, ru + rv);
    } else {
        assert(u + v == (qu + qv + 1) * d + (ru + rv - d)) by (nonlinear_arith)
            requires
                u + v == (qu + qv) * d + (ru + rv),
        ;
        lemma_div_of(u + v, d, qu + qv + 1, ru + rv - d);
    }
}

/// Euclidean rhythms are maximally even. In E(pulses, steps), any run of
/// `len` consecutive steps, wrapping round from the last step to the first,
/// holds `len * k / steps` hits rounded down, or one more, where `k` is the
/// smaller of `pulses` and `steps`; so any two runs of the same length hold
/// numbers of hits that differ by at most one.
pub proof fn euclidean_maximally_even(pulses: nat, steps: nat, start: int, other: int, len: int)
    requires
        steps > 0,
        0 <= start < steps,
        0 <= other < steps,
        0 <= len <= steps,
    ensures
        ({
            let x = euclidean_pattern(pulses, steps);
            let k = if pulses < steps { pulses } else { steps };
            let here = hits(cyclic_window(x, start, len)) as int;
            let there = hits(cyclic_window(x, other, len)) as int;
            &&& here == (len * k) / (steps as int) || here == (len * k) / (steps as int) + 1
            &&& here <= there + 1
        }),
{
    let x = euclidean_pattern(pulses, steps);
    let c = lemma_euclidean_on_grid(pulses, steps);
    crate::laws::euclidean_length_and_density(pulses, steps);
    let n = steps as int;
    let h = hits(x) as int;
    assert forall|st: int| 0 <= st < n implies (#[trigger] hits(cyclic_window(x, st, len))
        as int == (len * h) / n || hits(cyclic_window(x, st, len)) as int == (len * h) / n + 1) by {
        let xx = x + x;
        assert(xx.subrange(0, st + len) =~= xx.subrange(0, st) + xx.subrange(st, st + len));
        lemma_hits_concat(xx.subrange(0, st), xx.subrange(st, st + len));
        lemma_grid_two_laps(x, c, st);
        lemma_grid_two_laps(x, c, st + len);
        assert((st + len) * h + c == (st * h + c) + len * h) by (nonlinear_arith);
        assert(st * h + c >= 0 && len * h >= 0) by (nonlinear_arith)
            requires
                st >= 0,
                len >= 0,
                h >= 0,
                c >= 0,
        ;
        lemma_div_sum(st * h + c, len * h, n);
    }
    assert(hits(cyclic_window(x, start, len)) == hits(cyclic_window(x, start, len)));
    assert(hits(cyclic_window(x, other, len)) == hits(cyclic_window(x, other, len)));
}

/// Euclid's algorithm, as Bjorklund's pairing follows it: a Euclidean
/// pattern with fewer rests than steps is built from a smaller one.
/// With one rest, E(pulses, steps) is all hits and then the rest. With at
/// least two rests and more pulses than rests, it is E(rests, pulses) with
/// every hit turned into hit-then-rest and every rest into a hit. With at
/// least two rests and no more pulses than rests, it is E(pulses, rests)
/// with every hit turned into hit-then-rest.
pub proof fn euclidean_from_smaller(pulses: nat, steps: nat)
    requires
        0 < pulses < steps,
    ensures
        steps - pulses == 1 ==> euclidean_pattern(pulses, steps) == Seq::new(
            pulses,
            |i: int| true,
        ) + seq![false],
        steps - pulses >= 2 && pulses > steps - pulses ==> euclidean_pattern(pulses, steps)
            == subst(
            euclidean_pattern((steps - pulses) as nat, pulses),
            seq![true, false],
            seq![true],
        ),
        steps - pulses >= 2 && pulses <= steps - pulses ==> euclidean_pattern(pulses, steps)
            == subst(
            euclidean_pattern(pulses, (steps - pulses) as nat),
            seq![true, false],
            seq![false],
        ),
{
    let a = pulses;
    let b = (steps - pulses) as nat;
    let tf: Seq<bool> = seq![true, false];
    lemma_repeat_single(true, a);
    lemma_repeat_single(false, b);
    if b == 1 {
        assert(euclidean_pattern(pulses, steps) =~= Seq::new(pulses, |i: int| true) + seq![
            false,
        ]);
    } else if a > b {
        assert(seq![true] + seq![false] =~= tf);
        lemma_subst_single(true, tf, seq![true]);
        lemma_subst_single(false, tf, seq![true]);
        lemma_distribute_subst(seq![true], b, seq![false], (a - b) as nat, tf, seq![true]);
    } else {
        assert(seq![true] + seq![false] =~= tf);
        lemma_subst_single(true, tf, seq![false]);
        lemma_subst_single(false, tf, seq![false]);
        lemma_distribute_subst(seq![true], a, seq![false], (b - a) as nat, tf, seq![false]);
        if a == b {
            lemma_repeat_single(true, a);
            assert(repeat(seq![false], 0) =~= Seq::<bool>::empty());
            assert(distribute(seq![true], a, seq![false], 0) =~= Seq::new(a, |i: int| true));
        }
    }
}

} // verus!
