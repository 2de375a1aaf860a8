//! Tours and neighbor-generation moves.
//!
//! A tour is a permutation of the point indices `0..n-1`, read as a cyclic
//! visiting order. Every move generator returns a permutation of its input's
//! entries; the positional moves additionally pin down the exact shape of
//! the change (an exchange of two entries, a reversed segment).

use vstd::prelude::*;
use vstd::seq_lib::group_to_multiset_ensures;
use crate::rng::RandomSource;

verus! {

/// The move-generation strategy variants. `Insert` and `Kopt` are reserved
/// strategies of this milestone: both return the tour unchanged.
#[derive(Clone, Copy, PartialEq, Eq, Structural, Debug)]
pub enum GenerationMethod {
    Swap,
    Insert,
    Reverse,
    Kopt(usize),
}

/// The shortest tour each strategy may be invoked on: positional moves need
/// enough distinct positions, and every tour the engine scores needs at
/// least one point.
pub open spec fn min_tour_len(m: GenerationMethod) -> nat {
    match m {
        GenerationMethod::Swap => 2,
        GenerationMethod::Insert => 1,
        GenerationMethod::Reverse => 3,
        GenerationMethod::Kopt(_) => 1,
    }
}

/// Whether the strategy is one of the reserved no-op variants.
pub open spec fn is_no_op_method(m: GenerationMethod) -> bool {
    m is Insert || m is Kopt
}

/// The shortest tour each strategy may be invoked on.
pub fn min_tour_length(m: &GenerationMethod) -> (r: usize)
    ensures
        r == min_tour_len(*m),
{
    match m {
        GenerationMethod::Swap => 2,
        GenerationMethod::Insert => 1,
        GenerationMethod::Reverse => 3,
        GenerationMethod::Kopt(_) => 1,
    }
}

/// The identity visiting order `0, 1, ..., n-1`.
pub open spec fn index_seq(n: nat) -> Seq<usize> {
    Seq::new(n, |i: int| i as usize)
}

/// A tour over `n` points: some arrangement of each index `0..n-1` exactly once.
pub open spec fn valid_tour(s: Seq<usize>, n: nat) -> bool {
    s.to_multiset() == index_seq(n).to_multiset()
}

/// `s` with the entries at `i` and `j` exchanged.
pub open spec fn exchanged(s: Seq<usize>, i: int, j: int) -> Seq<usize> {
    s.update(i, s[j]).update(j, s[i])
}

/// `s` with the closed segment `[lo, hi]` reversed in place.
pub open spec fn segment_reversed(s: Seq<usize>, lo: int, hi: int) -> Seq<usize> {
    Seq::new(s.len(), |k: int| if lo <= k <= hi { s[lo + hi - k] } else { s[k] })
}

/// A multiset-permutation of a tour is again a tour: whatever arrangement a
/// move generator returns, validity is preserved.
pub proof fn lemma_candidate_is_tour(t: Seq<usize>, c: Seq<usize>, n: nat)
    requires
        valid_tour(t, n),
        c.to_multiset() == t.to_multiset(),
    ensures
        valid_tour(c, n),
{
}

/// Every entry of a valid tour over `n` points is an index below `n`.
pub proof fn lemma_tour_entries_in_range(s: Seq<usize>, n: nat)
    requires
        valid_tour(s, n),
    ensures
        forall|k: int| 0 <= k < s.len() ==> (#[trigger] s[k] as int) < n,
{
    broadcast use group_to_multiset_ensures;

    assert forall|k: int| 0 <= k < s.len() implies (#[trigger] s[k] as int) < n by {
        assert(s.contains(s[k]));
        assert(s.to_multiset().count(s[k]) > 0);
        assert(index_seq(n).to_multiset().count(s[k]) > 0);
        assert(index_seq(n).contains(s[k]));
        let w = choose|w: int| 0 <= w < index_seq(n).len() && index_seq(n)[w] == s[k];
        assert(index_seq(n)[w] == w as usize);
    }
}

/// A valid tour over `n` points has length `n`.
pub proof fn lemma_tour_len(s: Seq<usize>, n: nat)
    requires
        valid_tour(s, n),
    ensures
        s.len() == n,
{
    broadcast use group_to_multiset_ensures;

    assert(s.len() == s.to_multiset().len());
    assert(index_seq(n).len() == index_seq(n).to_multiset().len());
    assert(index_seq(n).len() == n);
}

/// Exchange the entries at `i` and `j`; the entries themselves survive.
fn exchange(v: &mut Vec<usize>, i: usize, j: usize)
    requires
        i < old(v).len(),
        j < old(v).len(),
    ensures
        final(v)@ == exchanged(old(v)@, i as int, j as int),
        final(v)@.to_multiset() == old(v)@.to_multiset(),
        final(v)@.len() == old(v)@.len(),
{
    proof {
        broadcast use group_to_multiset_ensures;

    }
    let ghost s = v@;
    let vi = v[i];
    let vj = v[j];
    v.set(i, vj);
    v.set(j, vi);
    proof {
        assert(s.contains(s[i as int]));
        assert(s.contains(s[j as int]));
        if i == j {
            assert(v@ =~= s);
            assert(v@.to_multiset() =~= s.to_multiset());
        } else {
            assert(s.update(i as int, s[j as int])[j as int] == s[j as int]);
            assert(v@.to_multiset() =~= s.to_multiset());
        }
    }
}

/// A uniformly random tour over `point_amount` points, by repeated exchange
/// of each position with a randomly drawn one.
pub fn initialize_solution(point_amount: usize, rng: &mut RandomSource) -> (r: Vec<usize>)
    ensures
        valid_tour(r@, point_amount as nat),
        r@.len() == point_amount,
{
    let mut solution: Vec<usize> = Vec::new();
    let mut i: usize = 0;
    while i < point_amount
        invariant
            i <= point_amount,
            solution@.len() == i,
            forall|k: int| 0 <= k < i ==> solution@[k] == k as usize,
        decreases point_amount - i,
    {
        solution.push(i);
        i = i + 1;
    }
    proof {
        assert(solution@ =~= index_seq(point_amount as nat));
    }
    let mut pos: usize = 0;
    while pos < point_amount
        invariant
            pos <= point_amount,
            solution@.len() == point_amount,
            solution@.to_multiset() == index_seq(point_amount as nat).to_multiset(),
        decreases point_amount - pos,
    {
        let other = rng.draw_below(point_amount);
        exchange(&mut solution, pos, other);
        pos = pos + 1;
    }
    solution
}

/// The Swap move: two distinct positions drawn at random, their entries
/// exchanged. The draw is arranged so that every pair drawn is already
/// distinct, in place of resampling on a collision.
pub fn swap(solution: &Vec<usize>, rng: &mut RandomSource) -> (r: Vec<usize>)
    requires
        solution.len() >= 2,
    ensures
        r@.to_multiset() == solution@.to_multiset(),
        r@.len() == solution@.len(),
        exists|i: int, j: int|
            0 <= i < solution@.len() && 0 <= j < solution@.len() && i != j && r@ == exchanged(
                solution@,
                i,
                j,
            ),
{
    let n = solution.len();
    let first = rng.draw_below(n);
    let gap = 1 + rng.draw_below(n - 1);
    let second = if first < n - gap {
        first + gap
    } else {
        first - (n - gap)
    };
    let mut neighbor = solution.clone();
    assert(neighbor@ == solution@);
    exchange(&mut neighbor, first, second);
    proof {
        assert(first != second);
        assert((first as int) < solution@.len() && (second as int) < solution@.len()
            && neighbor@ == exchanged(solution@, first as int, second as int));
    }
    neighbor
}

/// The Reverse move: a closed segment of length at least 3, drawn at random,
/// reversed in place. The two endpoints are drawn so that they are already
/// at index distance at least 2, in place of resampling.
pub fn reverse(solution: &Vec<usize>, rng: &mut RandomSource) -> (r: Vec<usize>)
    requires
        solution.len() >= 3,
    ensures
        r@.to_multiset() == solution@.to_multiset(),
        r@.len() == solution@.len(),
        exists|lo: int, hi: int|
            0 <= lo && lo + 2 <= hi < solution@.len() && r@ == segment_reversed(
                solution@,
                lo,
                hi,
            ),
{
    let n = solution.len();
    let lo = rng.draw_below(n - 2);
    let hi = lo + 2 + rng.draw_below(n - lo - 2);
    let mut neighbor = solution.clone();
    assert(neighbor@ == solution@);
    let ghost orig = solution@;
    let mut a = lo;
    let mut b = hi;
    while a < b
        invariant
            0 <= lo <= a,
            b <= hi < orig.len(),
            a + b == lo + hi,
            neighbor@.len() == orig.len(),
            neighbor@.to_multiset() == orig.to_multiset(),
            forall|k: int| 0 <= k < orig.len() && !(lo <= k <= hi) ==> neighbor@[k] == orig[k],
            forall|k: int| lo <= k < a ==> neighbor@[k] == orig[lo + hi - k],
            forall|k: int| b < k <= hi ==> neighbor@[k] == orig[lo + hi - k],
            forall|k: int| a <= k <= b ==> neighbor@[k] == orig[k],
        decreases b + 1 - a,
    {
        exchange(&mut neighbor, a, b);
        a = a + 1;
        b = b - 1;
    }
    proof {
        assert(neighbor@ =~= segment_reversed(orig, lo as int, hi as int));
        assert(lo as int + 2 <= hi as int && (hi as int) < orig.len() && neighbor@
            == segment_reversed(orig, lo as int, hi as int));
    }
    neighbor
}

/// One candidate neighbor of the current tour, produced by the configured
/// strategy. Whatever the strategy and whatever the random draws, the
/// result holds exactly the entries of the input; the reserved strategies
/// return the input unchanged.
pub fn generate(
    method: &GenerationMethod,
    solution: &Vec<usize>,
    rng: &mut RandomSource,
) -> (r: Vec<usize>)
    requires
        solution@.len() >= min_tour_len(*method),
    ensures
        r@.to_multiset() == solution@.to_multiset(),
        r@.len() == solution@.len(),
        is_no_op_method(*method) ==> r@ == solution@,
{
    proof {
        broadcast use group_to_multiset_ensures;

    }
    match method {
        GenerationMethod::Swap => swap(solution, rng),
        GenerationMethod::Insert => insert(solution),
        GenerationMethod::Reverse => reverse(solution, rng),
        GenerationMethod::Kopt(k) => k_opt(solution, *k),
    }
}

/// The Insert move. Left unimplemented in this milestone: the input tour is
/// returned unchanged, and the contract records exactly that.
pub fn insert(solution: &Vec<usize>) -> (r: Vec<usize>)
    ensures
        r@ == solution@,
        r@.to_multiset() == solution@.to_multiset(),
{
    solution.clone()
}

/// The k-opt move, parametrized by `k`. Left unimplemented in this
/// milestone: the input tour is returned unchanged, and the contract
/// records exactly that.
pub fn k_opt(solution: &Vec<usize>, k: usize) -> (r: Vec<usize>)
    ensures
        r@ == solution@,
        r@.to_multiset() == solution@.to_multiset(),
{
    let _ = k;
    solution.clone()
}

} // verus!
