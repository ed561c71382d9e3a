//! Choosing a token: the decisions of greedy and nucleus sampling.
//!
//! Scores, probabilities and their sums come as the bit patterns of IEEE single-precision numbers,
//! which order as sign and magnitude do.

use vstd::prelude::*;
use vstd::arithmetic::power2::*;
use vstd::set_lib::*;

verus! {

/// Where a number stands among the numbers: signed and in steps of one bit; `None` for what is not a
/// number.
pub open spec fn place(bits: u32) -> Option<int> {
    let magnitude = bits % 0x8000_0000;
    if magnitude > 0x7f80_0000 {
        None
    } else if bits >= 0x8000_0000 {
        Some(-magnitude)
    } else {
        Some(magnitude as int)
    }
}

/// Is `a` at least `b`? Never, if either is not a number.
pub open spec fn at_least(a: u32, b: u32) -> bool {
    place(a) is Some && place(b) is Some && place(a)->0 >= place(b)->0
}

/// Is `a` more than `b`? Never, if either is not a number.
pub open spec fn more(a: u32, b: u32) -> bool {
    place(a) is Some && place(b) is Some && place(a)->0 > place(b)->0
}

/// The place of a number; what is not a number stands below all.
pub open spec fn rank_place(bits: u32) -> int {
    match place(bits) {
        Some(p) => p,
        None => -0x1_0000_0000,
    }
}

/// The place of a number, if it is one.
fn place_of(bits: u32) -> (r: Option<i64>)
    ensures
        match r {
            Some(p) => place(bits) == Some(p as int),
            None => place(bits) is None,
        },
{
    let magnitude: u32 = bits % 0x8000_0000;
    if magnitude > 0x7f80_0000 {
        None
    } else if bits >= 0x8000_0000 {
        Some(-(magnitude as i64))
    } else {
        Some(magnitude as i64)
    }
}

fn is_at_least(a: u32, b: u32) -> (r: bool)
    ensures
        r == at_least(a, b),
{
    match (place_of(a), place_of(b)) {
        (Some(p), Some(q)) => p >= q,
        _ => false,
    }
}

fn is_more(a: u32, b: u32) -> (r: bool)
    ensures
        r == more(a, b),
{
    match (place_of(a), place_of(b)) {
        (Some(p), Some(q)) => p > q,
        _ => false,
    }
}

fn rank_place_of(bits: u32) -> (r: i64)
    ensures
        r == rank_place(bits),
{
    match place_of(bits) {
        Some(p) => p,
        None => -0x1_0000_0000,
    }
}

/// The highest score, and the first of several equal ones.
pub fn greedy(scores: &[u32]) -> (best: usize)
    ensures
        scores@.len() == 0 || place(scores@[0]) is None ==> best == 0,
        scores@.len() > 0 && place(scores@[0]) is Some ==> {
            &&& best < scores@.len()
            &&& place(scores@[best as int]) is Some
            &&& forall|i: int| 0 <= i < best ==> !#[trigger] at_least(scores@[i], scores@[best as int])
            &&& forall|i: int| best < i < scores@.len() ==> !#[trigger] more(scores@[i], scores@[best as int])
        },
{
    let mut best: usize = 0;
    let mut i: usize = 1;
    while i < scores.len()
        invariant
            1 <= i,
            best < i,
            scores@.len() > 0 ==> i <= scores@.len(),
            scores@.len() == 0 || place(scores@[0]) is None ==> best == 0,
            scores@.len() > 0 && place(scores@[0]) is Some ==> {
                &&& best < scores@.len()
                &&& place(scores@[best as int]) is Some
                &&& forall|k: int|
                    0 <= k < best ==> !#[trigger] at_least(scores@[k], scores@[best as int])
                &&& forall|k: int|
                    best < k < i ==> !#[trigger] more(scores@[k], scores@[best as int])
            },
        decreases scores@.len() - i,
    {
        if is_more(scores[i], scores[best]) {
            assert forall|k: int| 0 <= k < i && place(scores@[0]) is Some implies !#[trigger] at_least(
                scores@[k],
                scores@[i as int],
            ) by {
                if k < best {
                    assert(!at_least(scores@[k], scores@[best as int]));
                } else if k > best {
                    assert(!more(scores@[k], scores@[best as int]));
                }
            }
            best = i;
        }
        i += 1;
    }
    best
}

/// Does index `a` come before index `b`? Higher weights come first, and of equal ones the first.
pub open spec fn ahead(weights: Seq<u32>, a: usize, b: usize) -> bool {
    let (p, q) = (rank_place(weights[a as int]), rank_place(weights[b as int]));
    p > q || (p == q && a < b)
}

/// Are these the first `n` indices, in order of their weights?
pub open spec fn is_ranking(weights: Seq<u32>, n: nat, ranking: Seq<usize>) -> bool {
    &&& ranking.len() == n
    &&& forall|i: int| 0 <= i < n ==> #[trigger] ranking[i] < n
    &&& forall|i: int, j: int|
        0 <= i < j < n ==> ahead(weights, #[trigger] ranking[i], #[trigger] ranking[j])
}

/// The indices of the weights, from the highest weight down; equal weights keep their order.
pub fn rank(weights: &[u32]) -> (r: Vec<usize>)
    ensures
        is_ranking(weights@, weights@.len(), r@),
{
    let mut ranking: Vec<usize> = Vec::new();
    let mut n: usize = 0;
    while n < weights.len()
        invariant
            n <= weights@.len(),
            is_ranking(weights@, n as nat, ranking@),
        decreases weights@.len() - n,
    {
        let p = rank_place_of(weights[n]);
        let mut at: usize = n;
        while at > 0 && rank_place_of(weights[ranking[at - 1]]) < p
            invariant
                at <= n < weights@.len(),
                p == rank_place(weights@[n as int]),
                is_ranking(weights@, n as nat, ranking@),
                forall|k: int|
                    at <= k < n ==> rank_place(weights@[#[trigger] ranking@[k] as int]) < p,
            decreases at,
        {
            at -= 1;
        }
        let ghost before = ranking@;
        proof {
            assert forall|k: int| 0 <= k < at implies ahead(weights@, #[trigger] before[k], n) by {
                assert(before[k] < n);
                if k < at - 1 {
                    assert(ahead(weights@, before[k], before[at - 1]));
                }
            }
            assert forall|k: int| at <= k < n implies ahead(weights@, n, #[trigger] before[k]) by {}
        }
        ranking.insert(at, n);
        proof {
            let after = ranking@;
            assert(after =~= before.insert(at as int, n));
            assert forall|i: int| 0 <= i < n + 1 implies #[trigger] after[i] < n + 1 by {
                if i < at {
                    assert(after[i] == before[i]);
                } else if i > at {
                    assert(after[i] == before[i - 1]);
                }
            }
            assert forall|i: int, j: int| 0 <= i < j < n + 1 implies ahead(
                weights@,
                #[trigger] after[i],
                #[trigger] after[j],
            ) by {
                let x = if i < at {
                    before[i]
                } else if i == at {
                    n
                } else {
                    before[i - 1]
                };
                let y = if j < at {
                    before[j]
                } else if j == at {
                    n
                } else {
                    before[j - 1]
                };
                assert(after[i] == x && after[j] == y);
            }
        }
        n += 1;
    }
    ranking
}

/// How many of the highest ranks make up the nucleus: up to the first sum that reaches the cut, or
/// all if none does, and one at least. `sums` are the sums of the weights, rank by rank.
pub fn nucleus(sums: &[u32], cut: u32) -> (keep: usize)
    ensures
        1 <= keep,
        keep <= sums@.len() || keep == 1,
        forall|k: int| 0 <= k < keep - 1 ==> !#[trigger] at_least(sums@[k], cut),
        keep < sums@.len() ==> at_least(sums@[keep - 1], cut),
{
    let mut k: usize = 0;
    while k < sums.len()
        invariant
            k <= sums@.len(),
            forall|j: int| 0 <= j < k ==> !#[trigger] at_least(sums@[j], cut),
        decreases sums@.len() - k,
    {
        if is_at_least(sums[k], cut) {
            return k + 1;
        }
        k += 1;
    }
    if k == 0 {
        1
    } else {
        k
    }
}

/// The first rank whose sum reaches the drawn number, or the last rank if none does.
pub fn draw(sums: &[u32], drawn: u32) -> (r: usize)
    requires
        sums@.len() > 0,
    ensures
        r < sums@.len(),
        forall|k: int| 0 <= k < r ==> !#[trigger] at_least(sums@[k], drawn),
        r < sums@.len() - 1 ==> at_least(sums@[r as int], drawn),
{
    let mut k: usize = 0;
    while k < sums.len() - 1
        invariant
            k < sums@.len(),
            forall|j: int| 0 <= j < k ==> !#[trigger] at_least(sums@[j], drawn),
        decreases sums@.len() - k,
    {
        if is_at_least(sums[k], drawn) {
            return k;
        }
        k += 1;
    }
    k
}

/// A ranking holds every index.
pub proof fn law_ranking_is_complete(weights: Seq<u32>, n: nat, ranking: Seq<usize>)
    requires
        is_ranking(weights, n, ranking),
        n <= usize::MAX,
    ensures
        forall|v: usize| v < n ==> ranking.contains(v),
{
    let places = ranking.map_values(|v: usize| v as int);
    assert(places.no_duplicates()) by {
        assert forall|i: int, j: int| 0 <= i < j < n implies places[i] != places[j] by {
            assert(ahead(weights, ranking[i], ranking[j]));
        }
    }
    places.unique_seq_to_set();
    lemma_int_range(0, n as int);
    assert(places.to_set().subset_of(set_int_range(0, n as int))) by {
        assert forall|p: int| places.to_set().contains(p) implies 0 <= p < n by {
            let i = choose|i: int| 0 <= i < places.len() && places[i] == p;
            assert(ranking[i] < n);
        }
    }
    lemma_subset_equality(places.to_set(), set_int_range(0, n as int));
    assert forall|v: usize| v < n implies ranking.contains(v) by {
        assert(places.to_set().contains(v as int));
        let i = choose|i: int| 0 <= i < places.len() && places[i] == v as int;
        assert(ranking[i] == v);
    }
}

/// Two rankings that agree before rank `i` agree there: else each would put its own index first.
proof fn lemma_same_rank(weights: Seq<u32>, n: nat, a: Seq<usize>, b: Seq<usize>, i: int)
    requires
        0 <= i < n <= usize::MAX,
        is_ranking(weights, n, a),
        is_ranking(weights, n, b),
        a.take(i) == b.take(i),
    ensures
        a[i] == b[i],
{
    law_ranking_is_complete(weights, n, a);
    law_ranking_is_complete(weights, n, b);
    if a[i] != b[i] {
        assert(a[i] < n && b[i] < n);
        assert(b.contains(a[i]) && a.contains(b[i]));
        let j = choose|j: int| 0 <= j < b.len() && b[j] == a[i];
        let k = choose|k: int| 0 <= k < a.len() && a[k] == b[i];
        if j < i {
            assert(a[j] == a.take(i)[j] && b[j] == b.take(i)[j]);
            assert(!ahead(weights, a[j], a[i]));
        }
        if k < i {
            assert(a[k] == a.take(i)[k] && b[k] == b.take(i)[k]);
            assert(!ahead(weights, b[k], b[i]));
        }
        assert(i < j && i < k);
        assert(ahead(weights, b[i], b[j]));
        assert(ahead(weights, a[i], a[k]));
    }
}

/// There is only one ranking.
pub proof fn law_ranking_is_unique(weights: Seq<u32>, n: nat, a: Seq<usize>, b: Seq<usize>)
    requires
        is_ranking(weights, n, a),
        is_ranking(weights, n, b),
        n <= usize::MAX,
    ensures
        a == b,
{
    lemma_same_front(weights, n, a, b, n as int);
    assert(a.take(n as int) =~= a);
    assert(b.take(n as int) =~= b);
}

proof fn lemma_same_front(weights: Seq<u32>, n: nat, a: Seq<usize>, b: Seq<usize>, i: int)
    requires
        0 <= i <= n <= usize::MAX,
        is_ranking(weights, n, a),
        is_ranking(weights, n, b),
    ensures
        a.take(i) == b.take(i),
    decreases i,
{
    if i > 0 {
        lemma_same_front(weights, n, a, b, i - 1);
        lemma_same_rank(weights, n, a, b, i - 1);
        assert forall|k: int| 0 <= k < i implies a[k] == b[k] by {
            if k < i - 1 {
                assert(a.take(i - 1)[k] == b.take(i - 1)[k]);
            }
        }
    }
    assert(a.take(i) =~= b.take(i));
}

/// The size of an IEEE single-precision number, in units of the smallest: the 23 low bits count
/// units, with a one before them unless the 8 bits above are zero, and those bits say how often the
/// unit is doubled.
pub open spec fn size_of(bits: u32) -> nat {
    let fraction = (bits % 0x80_0000) as nat;
    let doubled = (bits / 0x80_0000 % 0x100) as nat;
    if doubled == 0 {
        fraction
    } else {
        (0x80_0000 + fraction) * pow2((doubled - 1) as nat)
    }
}

/// The value of an IEEE single-precision number, in units of the smallest.
pub open spec fn value_of(bits: u32) -> int {
    if bits >= 0x8000_0000 {
        -(size_of(bits) as int)
    } else {
        size_of(bits) as int
    }
}

/// Is a bit pattern not a number? Then all the bits of the exponent are ones, and not all of the
/// fraction zeros.
pub open spec fn is_nan(bits: u32) -> bool {
    bits / 0x80_0000 % 0x100 == 0xff && bits % 0x80_0000 != 0
}

proof fn lemma_parts(bits: u32)
    ensures
        bits % 0x8000_0000 == 0x80_0000 * (bits / 0x80_0000 % 0x100) + bits % 0x80_0000,
        bits / 0x80_0000 % 0x100 < 0x100,
        bits % 0x80_0000 < 0x80_0000,
{
    assert(bits % 0x8000_0000 == 0x80_0000 * (bits / 0x80_0000 % 0x100) + bits % 0x80_0000)
        by (bit_vector);
}

/// More steps of one bit make a larger number.
proof fn lemma_size_grows(a: u32, b: u32)
    ensures
        a % 0x8000_0000 < b % 0x8000_0000 ==> size_of(a) < size_of(b),
        a % 0x8000_0000 == b % 0x8000_0000 ==> size_of(a) == size_of(b),
        size_of(a) == 0 <==> a % 0x8000_0000 == 0,
{
    lemma_parts(a);
    lemma_parts(b);
    lemma2_to64();
    let (f, g) = ((a % 0x80_0000) as nat, (b % 0x80_0000) as nat);
    let (d, e) = ((a / 0x80_0000 % 0x100) as nat, (b / 0x80_0000 % 0x100) as nat);
    if d > 0 {
        let p = pow2((d - 1) as nat);
        lemma_pow2_pos((d - 1) as nat);
        assert((0x80_0000 + f) * p > 0) by (nonlinear_arith)
            requires
                p > 0,
        ;
    }
    if a % 0x8000_0000 < b % 0x8000_0000 {
        if d == e {
            if d > 0 {
                let p = pow2((d - 1) as nat);
                assert((0x80_0000 + f) * p < (0x80_0000 + g) * p) by (nonlinear_arith)
                    requires
                        p > 0,
                        f < g,
                ;
            }
        } else {
            assert(d < e);
            let q = pow2((e - 1) as nat);
            lemma_pow2_pos((e - 1) as nat);
            assert((0x80_0000 + g) * q >= 0x80_0000 * q) by (nonlinear_arith);
            if d > 0 {
                let p = pow2((d - 1) as nat);
                lemma_pow2_unfold(d);
                if d < e - 1 {
                    lemma_pow2_strictly_increases(d, (e - 1) as nat);
                }
                assert((0x80_0000 + f) * p < 0x80_0000 * q) by (nonlinear_arith)
                    requires
                        p > 0,
                        f < 0x80_0000,
                        2 * p <= q,
                ;
            }
        }
    }
}

/// Bit patterns compare as the numbers that they stand for, plus and minus zero alike, and what is
/// not a number compares with nothing.
pub proof fn law_bit_patterns_compare_as_numbers(a: u32, b: u32)
    ensures
        at_least(a, b) <==> !is_nan(a) && !is_nan(b) && value_of(a) >= value_of(b),
        more(a, b) <==> !is_nan(a) && !is_nan(b) && value_of(a) > value_of(b),
{
    lemma_parts(a);
    lemma_parts(b);
    lemma_size_grows(a, b);
    lemma_size_grows(b, a);
}

/// In a ranking the numbers fall from rank to rank, of equal ones the first comes first, and what is
/// not a number comes last.
pub proof fn law_ranking_falls(weights: Seq<u32>, n: nat, ranking: Seq<usize>, i: int, j: int)
    requires
        is_ranking(weights, n, ranking),
        n <= weights.len(),
        0 <= i < j < n,
    ensures
        ({
            let (a, b) = (weights[ranking[i] as int], weights[ranking[j] as int]);
            &&& is_nan(a) ==> is_nan(b)
            &&& !is_nan(b) ==> value_of(a) >= value_of(b)
            &&& !is_nan(b) && value_of(a) == value_of(b) ==> ranking[i] < ranking[j]
            &&& is_nan(a) && is_nan(b) ==> ranking[i] < ranking[j]
        }),
{
    let (a, b) = (weights[ranking[i] as int], weights[ranking[j] as int]);
    assert(ahead(weights, ranking[i], ranking[j]));
    lemma_parts(a);
    lemma_parts(b);
    lemma_size_grows(a, b);
    lemma_size_grows(b, a);
}

} // verus!
