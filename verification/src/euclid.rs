//! Euclidean rhythm patterns: Bjorklund's algorithm and pattern rotation.
use vstd::prelude::*;

verus! {

/// A pattern turned left by `offset` steps: step `i` of the result is step
/// `(i + offset) mod len` of `s`.
pub open spec fn rotated(s: Seq<bool>, offset: nat) -> Seq<bool> {
    if s.len() == 0 {
        s
    } else {
        Seq::new(s.len(), |i: int| s[(i + offset) % (s.len() as int)])
    }
}

/// Rotate a pattern by the given offset (in steps), wrapping around.
///
/// Phase-shifts the pattern without changing its density.
pub fn rotate(pattern: &[bool], offset: usize) -> (result: Vec<bool>)
    ensures
        result@ == rotated(pattern@, offset as nat),
{
    let n = pattern.len();
    if n == 0 {
        return Vec::new();
    }
    let k = offset % n;
    let mut result: Vec<bool> = Vec::with_capacity(n);
    let mut i: usize = k;
    while i < n
        invariant
            k <= i <= n,
            n == pattern@.len(),
            result@.len() == i - k,
            forall|j: int| 0 <= j < i - k ==> #[trigger] result@[j] == pattern@[j + k],
        decreases n - i,
    {
        result.push(pattern[i]);
        i += 1;
    }
    let mut i: usize = 0;
    while i < k
        invariant
            k < n,
            n == pattern@.len(),
            result@.len() == n - k + i,
            i <= k,
            forall|j: int| 0 <= j < n - k ==> #[trigger] result@[j] == pattern@[j + k],
            forall|j: int| n - k <= j < n - k + i ==> #[trigger] result@[j] == pattern@[j - (n - k)],
        decreases k - i,
    {
        result.push(pattern[i]);
        i += 1;
    }
    proof {
        let r = rotated(pattern@, offset as nat);
        assert forall|j: int| 0 <= j < n implies #[trigger] result@[j] == r[j] by {
            vstd::arithmetic::div_mod::lemma_add_mod_noop(j, offset as int, n as int);
            vstd::arithmetic::div_mod::lemma_mod_twice(j, n as int);
            vstd::arithmetic::div_mod::lemma_small_mod(j as nat, n as nat);
            assert((offset as int) % (n as int) == k);
            if j < n - k {
                vstd::arithmetic::div_mod::lemma_small_mod((j + k) as nat, n as nat);
            } else {
                vstd::arithmetic::div_mod::lemma_mod_sub_multiples_vanish(j + k, n as int);
                vstd::arithmetic::div_mod::lemma_small_mod((j + k - n) as nat, n as nat);
            }
        }
        assert(result@ =~= r);
    }
    result
}

/// `k` copies of the word `w`, back to back.
pub open spec fn repeat(w: Seq<bool>, k: nat) -> Seq<bool>
    decreases k,
{
    if k == 0 {
        Seq::empty()
    } else {
        repeat(w, (k - 1) as nat) + w
    }
}

/// Bjorklund's distribution of `a` groups, each equal to the word `g`, with
/// `b` remainders, each equal to the word `r`.
///
/// While more than one remainder is left, as many groups as possible each
/// take one remainder; the groups left over, if any, become the new
/// remainders. The final pattern is all groups followed by all remainders.
pub open spec fn distribute(g: Seq<bool>, a: nat, r: Seq<bool>, b: nat) -> Seq<bool>
    decreases a + b,
{
    if a == 0 || b <= 1 {
        repeat(g, a) + repeat(r, b)
    } else if a > b {
        distribute(g + r, b, g, (a - b) as nat)
    } else {
        distribute(g + r, a, r, (b - a) as nat)
    }
}

/// The Euclidean rhythm E(pulses, steps) as Bjorklund's algorithm builds it:
/// no hits when there are no pulses, every step a hit when there are at least
/// as many pulses as steps, and otherwise `pulses` one-hit groups distributed
/// among `steps - pulses` rests.
pub open spec fn euclidean_pattern(pulses: nat, steps: nat) -> Seq<bool> {
    if pulses == 0 || steps == 0 {
        Seq::new(steps, |i: int| false)
    } else if pulses >= steps {
        Seq::new(steps, |i: int| true)
    } else {
        distribute(seq![true], pulses, seq![false], (steps - pulses) as nat)
    }
}

/// Generate a Euclidean rhythm pattern using the Bjorklund algorithm.
///
/// Returns one boolean per step: `true` for an active step (a hit), `false`
/// for a rest. The pattern depends only on the number of pulses and steps.
pub fn bjorklund(pulses: usize, steps: usize) -> (result: Vec<bool>)
    ensures
        result@ == euclidean_pattern(pulses as nat, steps as nat),
{
    if pulses == 0 || steps == 0 {
        let v = vec![false; steps];
        assert(v@ =~= euclidean_pattern(pulses as nat, steps as nat));
        return v;
    }
    if pulses >= steps {
        let v = vec![true; steps];
        assert(v@ =~= euclidean_pattern(pulses as nat, steps as nat));
        return v;
    }
    let mut groups: Vec<Vec<bool>> = Vec::new();
    let mut i: usize = 0;
    while i < pulses
        invariant
            i <= pulses,
            groups@.len() == i,
            forall|j: int| 0 <= j < i ==> (#[trigger] groups@[j])@ == seq![true],
        decreases pulses - i,
    {
        let hit = vec![true];
        assert(hit@ =~= seq![true]);
        groups.push(hit);
        i += 1;
    }
    let mut remainders: Vec<Vec<bool>> = Vec::new();
    let mut i: usize = 0;
    while i < steps - pulses
        invariant
            pulses < steps,
            i <= steps - pulses,
            remainders@.len() == i,
            forall|j: int| 0 <= j < i ==> (#[trigger] remainders@[j])@ == seq![false],
        decreases steps - pulses - i,
    {
        let rest = vec![false];
        assert(rest@ =~= seq![false]);
        remainders.push(rest);
        i += 1;
    }
    let ghost mut g: Seq<bool> = seq![true];
    let ghost mut r: Seq<bool> = seq![false];
    while remainders.len() > 1
        invariant
            groups@.len() > 0,
            forall|j: int| 0 <= j < groups@.len() ==> (#[trigger] groups@[j])@ == g,
            forall|j: int| 0 <= j < remainders@.len() ==> (#[trigger] remainders@[j])@ == r,
            distribute(g, groups@.len(), r, remainders@.len())
                == euclidean_pattern(pulses as nat, steps as nat),
        decreases groups@.len() + remainders@.len(),
    {
        let combine_count = if groups.len() < remainders.len() {
            groups.len()
        } else {
            remainders.len()
        };
        let mut new_groups: Vec<Vec<bool>> = Vec::with_capacity(combine_count);
        let mut i: usize = 0;
        while i < combine_count
            invariant
                combine_count <= groups@.len(),
                combine_count <= remainders@.len(),
                forall|j: int| 0 <= j < groups@.len() ==> (#[trigger] groups@[j])@ == g,
                forall|j: int| 0 <= j < remainders@.len() ==> (#[trigger] remainders@[j])@ == r,
                i <= combine_count,
                new_groups@.len() == i,
                forall|j: int| 0 <= j < i ==> (#[trigger] new_groups@[j])@ == g + r,
            decreases combine_count - i,
        {
            let mut grp = groups[i].clone();
            let mut rem = remainders[i].clone();
            assert(grp@ =~= g);
            assert(rem@ =~= r);
            grp.append(&mut rem);
            new_groups.push(grp);
            i += 1;
        }
        let ghost a = groups@.len();
        let ghost b = remainders@.len();
        let ghost old_g = g;
        let leftover_groups = groups.split_off(combine_count);
        let leftover_remainders = remainders.split_off(combine_count);
        groups = new_groups;
        remainders = if leftover_groups.is_empty() {
            leftover_remainders
        } else {
            leftover_groups
        };
        proof {
            g = old_g + r;
            if a > b {
                r = old_g;
            }
        }
    }
    let mut result: Vec<bool> = Vec::new();
    let mut i: usize = 0;
    while i < groups.len()
        invariant
            i <= groups@.len(),
            forall|j: int| 0 <= j < groups@.len() ==> (#[trigger] groups@[j])@ == g,
            result@ == repeat(g, i as nat),
        decreases groups@.len() - i,
    {
        let mut w = groups[i].clone();
        assert(w@ =~= g);
        result.append(&mut w);
        i += 1;
    }
    let mut i: usize = 0;
    while i < remainders.len()
        invariant
            i <= remainders@.len(),
            forall|j: int| 0 <= j < remainders@.len() ==> (#[trigger] remainders@[j])@ == r,
            result@ == repeat(g, groups@.len() as nat) + repeat(r, i as nat),
        decreases remainders@.len() - i,
    {
        let mut w = remainders[i].clone();
        assert(w@ =~= r);
        result.append(&mut w);
        i += 1;
        assert(result@ =~= repeat(g, groups@.len() as nat) + repeat(r, i as nat));
    }
    result
}

} // verus!
