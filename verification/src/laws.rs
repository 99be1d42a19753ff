//! Properties of Euclidean rhythms and of rotation, proved over the
//! patterns that `bjorklund` and `rotate` return.
use vstd::prelude::*;
use crate::euclid::{distribute, euclidean_pattern, repeat, rotated};

verus! {

/// The number of active steps (hits) in a pattern.
pub open spec fn hits(s: Seq<bool>) -> nat
    decreases s.len(),
{
    if s.len() == 0 {
        0
    } else {
        hits(s.drop_last()) + if s.last() { 1nat } else { 0nat }
    }
}

pub(crate) proof fn lemma_hits_concat(u: Seq<bool>, v: Seq<bool>)
    ensures
        hits(u + v) == hits(u) + hits(v),
    decreases v.len(),
{
    if v.len() == 0 {
        assert(u + v =~= u);
    } else {
        lemma_hits_concat(u, v.drop_last());
        assert((u + v).drop_last() =~= u + v.drop_last());
    }
}

proof fn lemma_repeat_len_hits(w: Seq<bool>, k: nat)
    ensures
        repeat(w, k).len() == k * w.len(),
        hits(repeat(w, k)) == k * hits(w),
    decreases k,
{
    if k == 0 {
        assert(hits(Seq::<bool>::empty()) == 0);
    } else {
        lemma_repeat_len_hits(w, (k - 1) as nat);
        lemma_hits_concat(repeat(w, (k - 1) as nat), w);
        assert(repeat(w, k) == repeat(w, (k - 1) as nat) + w);
        assert(k * w.len() == (k - 1) * w.len() + w.len()) by (nonlinear_arith);
        assert(k * hits(w) == (k - 1) * hits(w) + hits(w)) by (nonlinear_arith);
    }
}

pub(crate) proof fn lemma_distribute_len_hits(g: Seq<bool>, a: nat, r: Seq<bool>, b: nat)
    ensures
        distribute(g, a, r, b).len() == a * g.len() + b * r.len(),
        hits(distribute(g, a, r, b)) == a * hits(g) + b * hits(r),
    decreases a + b,
{
    if a == 0 || b <= 1 {
        lemma_repeat_len_hits(g, a);
        lemma_repeat_len_hits(r, b);
        lemma_hits_concat(repeat(g, a), repeat(r, b));
    } else if a > b {
        lemma_distribute_len_hits(g + r, b, g, (a - b) as nat);
        lemma_hits_concat(g, r);
        assert(b * (g.len() + r.len()) + (a - b) * g.len() == a * g.len() + b * r.len())
            by (nonlinear_arith);
        assert(b * (hits(g) + hits(r)) + (a - b) * hits(g) == a * hits(g) + b * hits(r))
            by (nonlinear_arith);
    } else {
        lemma_distribute_len_hits(g + r, a, r, (b - a) as nat);
        lemma_hits_concat(g, r);
        assert(a * (g.len() + r.len()) + (b - a) * r.len() == a * g.len() + b * r.len())
            by (nonlinear_arith);
        assert(a * (hits(g) + hits(r)) + (b - a) * hits(r) == a * hits(g) + b * hits(r))
            by (nonlinear_arith);
    }
}

pub(crate) proof fn lemma_constant_hits(n: nat, v: bool)
    ensures
        hits(Seq::new(n, |i: int| v)) == if v { n } else { 0 },
    decreases n,
{
    if n > 0 {
        lemma_constant_hits((n - 1) as nat, v);
        assert(Seq::new(n, |i: int| v).drop_last() =~= Seq::new((n - 1) as nat, |i: int| v));
    }
}

/// A Euclidean pattern has one entry per step, and exactly as many hits as
/// pulses, or a hit on every step when there are more pulses than steps.
pub proof fn euclidean_length_and_density(pulses: nat, steps: nat)
    ensures
        euclidean_pattern(pulses, steps).len() == steps,
        hits(euclidean_pattern(pulses, steps)) == if pulses < steps { pulses } else { steps },
{
    if pulses == 0 || steps == 0 {
        lemma_constant_hits(steps, false);
    } else if pulses >= steps {
        lemma_constant_hits(steps, true);
    } else {
        let hit: Seq<bool> = seq![true];
        let rest: Seq<bool> = seq![false];
        lemma_distribute_len_hits(hit, pulses, rest, (steps - pulses) as nat);
        assert(hits(hit) == 1) by {
            assert(hit.drop_last() =~= Seq::<bool>::empty());
            assert(hits(Seq::<bool>::empty()) == 0);
        }
        assert(hits(rest) == 0) by {
            assert(rest.drop_last() =~= Seq::<bool>::empty());
            assert(hits(Seq::<bool>::empty()) == 0);
        }
        assert(pulses * hit.len() + (steps - pulses) * rest.len() == steps) by (nonlinear_arith)
            requires
                hit.len() == 1,
                rest.len() == 1,
                pulses < steps,
        ;
        assert(pulses * hits(hit) + (steps - pulses) * hits(rest) == pulses) by (nonlinear_arith)
            requires
                hits(hit) == 1,
                hits(rest) == 0,
        ;
    }
}

proof fn lemma_rotated_as_halves(s: Seq<bool>, offset: nat)
    requires
        s.len() > 0,
    ensures
        rotated(s, offset) =~= s.subrange((offset % s.len()) as int, s.len() as int) + s.subrange(
            0,
            (offset % s.len()) as int,
        ),
{
    let n = s.len() as int;
    let k = (offset % s.len()) as int;
    let t = s.subrange(k, n) + s.subrange(0, k);
    assert forall|j: int| 0 <= j < n implies #[trigger] rotated(s, offset)[j] == t[j] by {
        vstd::arithmetic::div_mod::lemma_add_mod_noop(j, offset as int, n);
        vstd::arithmetic::div_mod::lemma_small_mod(j as nat, n as nat);
        if j < n - k {
            vstd::arithmetic::div_mod::lemma_small_mod((j + k) as nat, n as nat);
        } else {
            vstd::arithmetic::div_mod::lemma_mod_sub_multiples_vanish(j + k, n);
            vstd::arithmetic::div_mod::lemma_small_mod((j + k - n) as nat, n as nat);
        }
    }
}

/// Rotation keeps a pattern's length and its number of hits: it shifts the
/// phase without changing the density.
pub proof fn rotation_keeps_density(s: Seq<bool>, offset: nat)
    ensures
        rotated(s, offset).len() == s.len(),
        hits(rotated(s, offset)) == hits(s),
{
    if s.len() > 0 {
        let k = (offset % s.len()) as int;
        lemma_rotated_as_halves(s, offset);
        lemma_hits_concat(s.subrange(k, s.len() as int), s.subrange(0, k));
        lemma_hits_concat(s.subrange(0, k), s.subrange(k, s.len() as int));
        assert(s.subrange(0, k) + s.subrange(k, s.len() as int) =~= s);
    }
}

/// Rotating by a whole number of cycles, zero included, gives back the
/// pattern itself.
pub proof fn rotation_full_cycle(s: Seq<bool>, cycles: nat)
    ensures
        rotated(s, cycles * s.len()) == s,
{
    if s.len() > 0 {
        let n = s.len() as int;
        assert forall|j: int| 0 <= j < n implies #[trigger] rotated(s, cycles * s.len())[j]
            == s[j] by {
            vstd::arithmetic::div_mod::lemma_mod_multiples_vanish(cycles as int, j, n);
            vstd::arithmetic::div_mod::lemma_small_mod(j as nat, n as nat);
            assert(j + cycles * n == cycles * n + j);
        }
        assert(rotated(s, cycles * s.len()) =~= s);
    }
}

/// Rotating by `first` and then by `second` is rotating by their sum.
pub proof fn rotation_composes(s: Seq<bool>, first: nat, second: nat)
    ensures
        rotated(rotated(s, first), second) == rotated(s, first + second),
{
    if s.len() > 0 {
        let n = s.len() as int;
        let once = rotated(s, first);
        assert forall|j: int| 0 <= j < n implies #[trigger] rotated(once, second)[j] == rotated(
            s,
            first + second,
        )[j] by {
            vstd::arithmetic::div_mod::lemma_add_mod_noop_right(first as int, j + second, n);
            assert(first + (j + second) == j + (first + second));
        }
        assert(rotated(once, second) =~= rotated(s, first + second));
    }
}

/// No step strictly between `i` and `j` is a hit.
pub open spec fn rests_between(x: Seq<bool>, i: int, j: int) -> bool {
    forall|k: int| i < k < j ==> !x[k]
}

/// The pattern starts on a hit, and each span from a hit to the next hit,
/// or from the last hit to the end of the cycle (where the first hit comes
/// round again), is at least `lo` and at most `hi` steps long.
pub open spec fn spans_within(x: Seq<bool>, lo: int, hi: int) -> bool {
    &&& x.len() > 0
    &&& x[0]
    &&& forall|i: int, j: int|
        #![trigger rests_between(x, i, j)]
        0 <= i < j <= x.len() && x[i] && (j == x.len() || x[j]) && rests_between(x, i, j) ==> lo
            <= j - i <= hi
}

/// A hit followed only by rests.
spec fn single_span(g: Seq<bool>) -> bool {
    &&& g.len() > 0
    &&& g[0]
    &&& forall|k: int| 0 < k < g.len() ==> !g[k]
}

proof fn lemma_single_span(g: Seq<bool>)
    requires
        single_span(g),
    ensures
        spans_within(g, g.len() as int, g.len() as int),
        single_span(g + seq![false]),
{
    assert forall|i: int, j: int|
        0 <= i < j <= g.len() && g[i] && (j == g.len() || g[j]) && #[trigger] rests_between(
            g,
            i,
            j,
        ) implies g.len() <= j - i <= g.len() by {
        assert(i == 0);
        assert(j == g.len());
    }
    let h = g + seq![false];
    assert forall|k: int| 0 < k < h.len() implies !h[k] by {
        if k < g.len() {
            assert(h[k] == g[k]);
        }
    }
}

proof fn lemma_spans_concat(u: Seq<bool>, v: Seq<bool>, lo: int, hi: int)
    requires
        spans_within(u, lo, hi),
        spans_within(v, lo, hi),
    ensures
        spans_within(u + v, lo, hi),
{
    let x = u + v;
    let n = u.len() as int;
    assert forall|i: int, j: int|
        0 <= i < j <= x.len() && x[i] && (j == x.len() || x[j]) && #[trigger] rests_between(
            x,
            i,
            j,
        ) implies lo <= j - i <= hi by {
        if j <= n {
            assert(rests_between(u, i, j)) by {
                assert forall|k: int| i < k < j implies !u[k] by {
                    assert(x[k] == u[k]);
                }
            }
            if j < n {
                assert(x[j] == u[j]);
            }
            assert(x[i] == u[i]);
        } else if i >= n {
            assert(rests_between(v, i - n, j - n)) by {
                assert forall|k: int| i - n < k < j - n implies !v[k] by {
                    assert(x[k + n] == v[k]);
                }
            }
            if j < x.len() {
                assert(x[j] == v[j - n]);
            }
            assert(x[i] == v[i - n]);
        } else {
            assert(x[n] == v[0]);
            assert(!x[n]);
        }
    }
}

proof fn lemma_spans_repeat(w: Seq<bool>, k: nat, lo: int, hi: int)
    requires
        spans_within(w, lo, hi),
        k > 0,
    ensures
        spans_within(repeat(w, k), lo, hi),
    decreases k,
{
    if k == 1 {
        assert(repeat(w, 0) =~= Seq::<bool>::empty());
        assert(repeat(w, 1) =~= w);
    } else {
        lemma_spans_repeat(w, (k - 1) as nat, lo, hi);
        lemma_spans_concat(repeat(w, (k - 1) as nat), w, lo, hi);
    }
}

proof fn lemma_spans_widen(x: Seq<bool>, lo: int, hi: int, lo2: int, hi2: int)
    requires
        spans_within(x, lo, hi),
        lo2 <= lo,
        hi <= hi2,
    ensures
        spans_within(x, lo2, hi2),
{
    assert forall|i: int, j: int|
        0 <= i < j <= x.len() && x[i] && (j == x.len() || x[j]) && #[trigger] rests_between(
            x,
            i,
            j,
        ) implies lo2 <= j - i <= hi2 by {}
}

proof fn lemma_spans_trailing_rest(x: Seq<bool>, lo: int)
    requires
        spans_within(x, lo, lo),
    ensures
        spans_within(x + seq![false], lo, lo + 1),
{
    let y = x + seq![false];
    let n = x.len() as int;
    assert forall|i: int, j: int|
        0 <= i < j <= y.len() && y[i] && (j == y.len() || y[j]) && #[trigger] rests_between(
            y,
            i,
            j,
        ) implies lo <= j - i <= lo + 1 by {
        assert(y[n] == false);
        assert(i < n);
        assert(y[i] == x[i]);
        if j == y.len() {
            assert(rests_between(x, i, n)) by {
                assert forall|k: int| i < k < n implies !x[k] by {
                    assert(y[k] == x[k]);
                }
            }
        } else {
            assert(j < n);
            assert(y[j] == x[j]);
            assert(rests_between(x, i, j)) by {
                assert forall|k: int| i < k < j implies !x[k] by {
                    assert(y[k] == x[k]);
                }
            }
        }
    }
}

/// Distributing groups among remainders whose spans already lie within one
/// step of each other keeps them there.
proof fn lemma_distribute_balanced(g: Seq<bool>, a: nat, r: Seq<bool>, b: nat, lo: int)
    requires
        a > 0,
        spans_within(g, lo, lo + 1),
        spans_within(r, lo, lo + 1),
    ensures
        spans_within(distribute(g, a, r, b), lo, lo + 1),
    decreases a + b,
{
    if b <= 1 {
        lemma_spans_repeat(g, a, lo, lo + 1);
        if b == 0 {
            assert(repeat(r, 0) =~= Seq::<bool>::empty());
            assert(repeat(g, a) + repeat(r, b) =~= repeat(g, a));
        } else {
            assert(repeat(r, 0) =~= Seq::<bool>::empty());
            assert(repeat(r, 1) =~= r);
            lemma_spans_concat(repeat(g, a), r, lo, lo + 1);
        }
    } else {
        lemma_spans_concat(g, r, lo, lo + 1);
        if a > b {
            lemma_distribute_balanced(g + r, b, g, (a - b) as nat, lo);
        } else {
            lemma_distribute_balanced(g + r, a, r, (b - a) as nat, lo);
        }
    }
}

/// The first phase of Bjorklund's algorithm: `a` single spans of equal length
/// take rests one at a time.
proof fn lemma_distribute_rests(g: Seq<bool>, a: nat, b: nat)
    requires
        a > 0,
        single_span(g),
    ensures
        spans_within(
            distribute(g, a, seq![false], b),
            (a * g.len() + b) as int / (a as int),
            (a * g.len() + b) as int / (a as int) + 1,
        ),
    decreases a + b,
{
    let m = g.len() as int;
    let s: int = a * m + b;
    lemma_single_span(g);
    let f: Seq<bool> = seq![false];
    assert(repeat(f, 0) =~= Seq::<bool>::empty());
    assert(repeat(f, 1) =~= f);
    if b == 0 {
        assert(s == m * a + 0) by (nonlinear_arith)
            requires
                s == a * m + b,
                b == 0,
        ;
        vstd::arithmetic::div_mod::lemma_fundamental_div_mod_converse(s, a as int, m, 0);
        lemma_spans_repeat(g, a, m, m);
        assert(repeat(g, a) + repeat(f, b) =~= repeat(g, a));
        lemma_spans_widen(repeat(g, a), m, m, m, m + 1);
    } else if b == 1 {
        lemma_spans_repeat(g, a, m, m);
        lemma_spans_trailing_rest(repeat(g, a), m);
        if a == 1 {
            assert(repeat(g, 0) =~= Seq::<bool>::empty());
            assert(repeat(g, 1) =~= g);
            vstd::arithmetic::div_mod::lemma_fundamental_div_mod_converse(s, 1, m + 1, 0);
            lemma_single_span(g + f);
            lemma_spans_widen(g + f, m + 1, m + 1, m + 1, m + 2);
        } else {
            assert(s == m * a + 1) by (nonlinear_arith)
                requires
                    s == a * m + b,
                    b == 1,
            ;
            vstd::arithmetic::div_mod::lemma_fundamental_div_mod_converse(s, a as int, m, 1);
        }
    } else if a > b {
        assert(s == m * a + b) by (nonlinear_arith)
            requires
                s == a * m + b,
        ;
        vstd::arithmetic::div_mod::lemma_fundamental_div_mod_converse(s, a as int, m, b as int);
        lemma_single_span(g + f);
        lemma_spans_widen(g + f, m + 1, m + 1, m, m + 1);
        lemma_spans_widen(g, m, m, m, m + 1);
        lemma_distribute_balanced(g + f, b, g, (a - b) as nat, m);
    } else {
        lemma_distribute_rests(g + f, a, (b - a) as nat);
        assert(a * (m + 1) + (b - a) == s) by (nonlinear_arith)
            requires
                s == a * m + b,
        ;
    }
}

/// Euclidean rhythms are evenly spaced: with at least one pulse and one
/// step, the pattern starts on a hit, and each span from a hit to the next
/// hit (for the last hit: to the end of the cycle) is `steps / hits` steps
/// long, rounded down, or one step longer, where `hits` is the smaller of
/// `pulses` and `steps`.
pub proof fn euclidean_evenly_spaced(pulses: nat, steps: nat)
    requires
        pulses > 0,
        steps > 0,
    ensures
        ({
            let k = if pulses < steps { pulses } else { steps };
            spans_within(
                euclidean_pattern(pulses, steps),
                steps as int / k as int,
                steps as int / k as int + 1,
            )
        }),
{
    let x = euclidean_pattern(pulses, steps);
    if pulses >= steps {
        vstd::arithmetic::div_mod::lemma_fundamental_div_mod_converse(
            steps as int,
            steps as int,
            1,
            0,
        );
        assert forall|i: int, j: int|
            0 <= i < j <= x.len() && x[i] && (j == x.len() || x[j]) && #[trigger] rests_between(
                x,
                i,
                j,
            ) implies 1 <= j - i <= 2 by {
            if j > i + 1 {
                assert(x[i + 1]);
            }
        }
    } else {
        let g: Seq<bool> = seq![true];
        assert(single_span(g));
        lemma_distribute_rests(g, pulses, (steps - pulses) as nat);
        assert(pulses * 1 + (steps - pulses) == steps);
    }
}

} // verus!
