//! The key/value cache of one layer: for every head the rows of all positions seen so far.

use vstd::prelude::*;

use crate::lm::row;

verus! {

/// Keys and values of `seq` positions, laid out head by head, position by position.
#[derive(Clone, Debug)]
pub struct KvCache<T> {
    pub k: Vec<T>,
    pub v: Vec<T>,
    pub seq: usize,
}

/// The row of head `h` at position `s` once the `t` rows per head of `new` stand behind the `seq`
/// rows per head of `old`. New rows come position by position, with a row for each of `nh` heads.
pub open spec fn merged_row<T>(
    old_rows: Seq<T>,
    new_rows: Seq<T>,
    nh: nat,
    dk: nat,
    seq: nat,
    h: nat,
    s: nat,
) -> Seq<T> {
    if s < seq {
        row(old_rows, dk, h * seq + s)
    } else {
        row(new_rows, dk, ((s - seq) * nh + h) as nat)
    }
}

/// Is `out` what `old_rows` becomes when the rows of `t` positions are put behind it?
pub open spec fn is_append<T>(
    old_rows: Seq<T>,
    new_rows: Seq<T>,
    out: Seq<T>,
    nh: nat,
    dk: nat,
    seq: nat,
    t: nat,
) -> bool {
    &&& out.len() == nh * (seq + t) * dk
    &&& forall|h: nat, s: nat|
        h < nh && s < seq + t ==> #[trigger] row(out, dk, h * (seq + t) + s) == merged_row(
            old_rows,
            new_rows,
            nh,
            dk,
            seq,
            h,
            s,
        )
}

/// Row `r` of `n` rows of width `dk` lies inside.
proof fn lemma_inside(r: nat, n: nat, dk: nat)
    requires
        r < n,
    ensures
        r * dk + dk <= n * dk,
        (r + 1) * dk == r * dk + dk,
{
    assert(r * dk + dk <= n * dk) by (nonlinear_arith)
        requires
            r < n,
    ;
    assert((r + 1) * dk == r * dk + dk) by (nonlinear_arith);
}

/// The number of the row of head `h` at position `s`.
proof fn lemma_row_number(h: nat, nh: nat, s: nat, n: nat)
    requires
        h < nh,
        s < n,
    ensures
        h * n + s < nh * n,
        (h + 1) * n == h * n + n,
{
    assert(h * n + n <= nh * n) by (nonlinear_arith)
        requires
            h < nh,
    ;
    assert((h + 1) * n == h * n + n) by (nonlinear_arith);
}

/// Copies row `r` of `src` behind `out`.
fn push_row<T: Copy>(out: &mut Vec<T>, src: &[T], r: usize, dk: usize)
    requires
        r * dk + dk <= src@.len(),
    ensures
        final(out)@ == old(out)@ + row(src@, dk as nat, r as nat),
{
    assert(r * dk + dk <= src.len());
    let start = r * dk;
    let mut j: usize = 0;
    while j < dk
        invariant
            j <= dk,
            start == r * dk,
            start + dk <= src@.len() <= usize::MAX,
            out@ == old(out)@ + src@.subrange(start as int, start + j),
        decreases dk - j,
    {
        out.push(src[start + j]);
        j += 1;
        assert(out@ =~= old(out)@ + src@.subrange(start as int, start + j));
    }
}

/// Puts the rows of `t` new positions behind those of `seq` old ones, head by head.
fn append_rows<T: Copy>(
    old_rows: &[T],
    new_rows: &[T],
    nh: usize,
    dk: usize,
    seq: usize,
    t: usize,
) -> (out: Vec<T>)
    requires
        old_rows@.len() == nh * seq * dk,
        new_rows@.len() == t * nh * dk,
        seq + t <= usize::MAX,
    ensures
        is_append(old_rows@, new_rows@, out@, nh as nat, dk as nat, seq as nat, t as nat),
{
    let mut out: Vec<T> = Vec::new();
    let all = seq + t;
    if dk == 0 {
        assert(nh * all * 0 == 0);
        assert forall|h: nat, s: nat| h < nh && s < all implies #[trigger] row(
            out@,
            0,
            h * all as nat + s,
        ) == merged_row(old_rows@, new_rows@, nh as nat, 0, seq as nat, h, s) by {
            assert(row(out@, 0, h * all as nat + s) =~= merged_row(
                old_rows@,
                new_rows@,
                nh as nat,
                0,
                seq as nat,
                h,
                s,
            ));
        }
        return out;
    }
    let ghost (n, d) = (nh as nat, dk as nat);
    let mut h: usize = 0;
    assert(0 * all * dk == 0) by (nonlinear_arith);
    while h < nh
        invariant
            h <= nh,
            all == seq + t,
            dk > 0,
            n == nh,
            d == dk,
            old_rows@.len() == nh * seq * dk,
            new_rows@.len() == t * nh * dk,
            out@.len() == h * all * dk,
            forall|a: nat, s: nat|
                a < h && s < all ==> #[trigger] row(out@, d, a * all as nat + s) == merged_row(
                    old_rows@,
                    new_rows@,
                    n,
                    d,
                    seq as nat,
                    a,
                    s,
                ),
        decreases nh - h,
    {
        let mut s: usize = 0;
        assert((h * all + 0) * dk == h * all * dk);
        while s < all
            invariant
                h < nh,
                s <= all,
                all == seq + t,
                dk > 0,
                n == nh,
                d == dk,
                old_rows@.len() == nh * seq * dk,
                new_rows@.len() == t * nh * dk,
                out@.len() == (h * all + s) * dk,
                forall|a: nat, b: nat|
                    (a < h && b < all) || (a == h && b < s) ==> #[trigger] row(
                        out@,
                        d,
                        a * all as nat + b,
                    ) == merged_row(old_rows@, new_rows@, n, d, seq as nat, a, b),
            decreases all - s,
        {
            let ghost before = out@;
            let ghost here = (h * all + s) as nat;
            if s < seq {
                proof {
                    lemma_row_number(h as nat, n, s as nat, seq as nat);
                    lemma_inside((h * seq + s) as nat, (nh * seq) as nat, d);
                }
                let len = old_rows.len();
                proof {
                    lemma_fits(h as nat, seq as nat, s as nat, d, len as nat);
                }
                push_row(&mut out, old_rows, h * seq + s, dk);
            } else {
                let i = s - seq;
                proof {
                    lemma_row_number(i as nat, t as nat, h as nat, n);
                    lemma_inside((i * nh + h) as nat, (t * nh) as nat, d);
                }
                let len = new_rows.len();
                proof {
                    lemma_fits(i as nat, n, h as nat, d, len as nat);
                }
                push_row(&mut out, new_rows, i * nh + h, dk);
            }
            proof {
                lemma_inside(here, here + 1, d);
                assert((h * all + (s + 1)) * dk == (here + 1) * d) by {
                    assert(h * all + (s + 1) == here + 1);
                }
                assert forall|a: nat, b: nat|
                    (a < h && b < all) || (a == h && b < s + 1) implies #[trigger] row(
                    out@,
                    d,
                    a * all as nat + b,
                ) == merged_row(old_rows@, new_rows@, n, d, seq as nat, a, b) by {
                    if a == h && b == s {
                        assert(row(out@, d, here) =~= merged_row(
                            old_rows@,
                            new_rows@,
                            n,
                            d,
                            seq as nat,
                            a,
                            b,
                        ));
                    } else {
                        let r = a * all as nat + b;
                        assert(r < here) by {
                            if a < h {
                                lemma_row_number(a, h as nat, b, all as nat);
                            }
                        }
                        lemma_inside(r, here, d);
                        assert(row(out@, d, r) =~= row(before, d, r));
                    }
                }
            }
            s += 1;
        }
        proof {
            lemma_row_number(h as nat, n, 0, (all + 1) as nat);
            assert((h + 1) * all == h * all + all) by (nonlinear_arith);
        }
        h += 1;
    }
    out
}

/// The number of a row is within the machine's range when its end is.
proof fn lemma_fits(a: nat, m: nat, b: nat, d: nat, len: nat)
    requires
        d > 0,
        (a * m + b) * d + d <= len <= usize::MAX,
    ensures
        a * m <= usize::MAX,
        a * m + b <= usize::MAX,
{
    assert(a * m + b <= (a * m + b) * d) by (nonlinear_arith)
        requires
            d > 0,
    ;
    assert(0 <= a * m) by (nonlinear_arith);
}

impl<T: Copy> KvCache<T> {
    /// Does the cache hold the rows of `seq` positions for `nh` heads of width `dk`?
    pub open spec fn wf(self, nh: nat, dk: nat) -> bool {
        &&& self.k@.len() == nh * self.seq as nat * dk
        &&& self.v@.len() == nh * self.seq as nat * dk
    }

    /// The key of head `h` at position `s`, in rows of width `dk`.
    pub open spec fn key_row(self, dk: nat, h: nat, s: nat) -> Seq<T> {
        row(self.k@, dk, h * self.seq as nat + s)
    }

    /// The value of head `h` at position `s`.
    pub open spec fn value_row(self, dk: nat, h: nat, s: nat) -> Seq<T> {
        row(self.v@, dk, h * self.seq as nat + s)
    }

    /// Takes in the keys and values of `t` more positions, each with a row for every head.
    pub fn append(&mut self, k_new: &[T], v_new: &[T], nh: usize, dk: usize, t: usize)
        requires
            old(self).wf(nh as nat, dk as nat),
            k_new@.len() == t * nh * dk,
            v_new@.len() == t * nh * dk,
            old(self).seq + t <= usize::MAX,
        ensures
            final(self).wf(nh as nat, dk as nat),
            final(self).seq == old(self).seq + t,
            is_append(
                old(self).k@,
                k_new@,
                final(self).k@,
                nh as nat,
                dk as nat,
                old(self).seq as nat,
                t as nat,
            ),
            is_append(
                old(self).v@,
                v_new@,
                final(self).v@,
                nh as nat,
                dk as nat,
                old(self).seq as nat,
                t as nat,
            ),
            forall|h: nat, i: nat| #![trigger final(self).key_row(dk as nat, h, old(self).seq as nat + i)]
                h < nh && i < t ==> final(self).key_row(dk as nat, h, old(self).seq as nat + i)
                    == k_new@.subrange(
                    (i * nh * dk + h * dk) as int,
                    (i * nh * dk + h * dk + dk) as int,
                ),
            forall|h: nat, s: nat|
                h < nh && s < old(self).seq ==> #[trigger] final(self).key_row(dk as nat, h, s) == old(
                    self,
                ).key_row(dk as nat, h, s),
            forall|h: nat, i: nat| #![trigger final(self).value_row(dk as nat, h, old(self).seq as nat + i)]
                h < nh && i < t ==> final(self).value_row(dk as nat, h, old(self).seq as nat + i)
                    == v_new@.subrange(
                    (i * nh * dk + h * dk) as int,
                    (i * nh * dk + h * dk + dk) as int,
                ),
            forall|h: nat, s: nat|
                h < nh && s < old(self).seq ==> #[trigger] final(self).value_row(dk as nat, h, s) == old(
                    self,
                ).value_row(dk as nat, h, s),
    {
        let ghost before = *self;
        let k = append_rows(self.k.as_slice(), k_new, nh, dk, self.seq, t);
        let v = append_rows(self.v.as_slice(), v_new, nh, dk, self.seq, t);
        self.k = k;
        self.v = v;
        self.seq = self.seq + t;
        proof {
            law_cache_gives_back(before, *self, k_new@, v_new@, nh as nat, dk as nat, t as nat);
        }
    }
}

/// The row of head `h` at position `s` of `seq`.
fn row_at<T>(rows: &[T], nh: usize, dk: usize, seq: usize, h: usize, s: usize) -> (r: &[T])
    requires
        rows@.len() == nh * seq * dk,
        h < nh,
        s < seq,
    ensures
        r@ == row(rows@, dk as nat, (h * seq + s) as nat),
        r@.len() == dk,
        forall|j: int| 0 <= j < dk ==> #[trigger] r@[j] == rows@[(h * seq + s) * dk + j],
{
    let len = rows.len();
    if dk == 0 {
        let r = vstd::slice::slice_subrange(rows, 0, 0);
        assert(r@ =~= row(rows@, 0, (h * seq + s) as nat));
        return r;
    }
    proof {
        lemma_row_number(h as nat, nh as nat, s as nat, seq as nat);
        lemma_inside((h * seq + s) as nat, (nh * seq) as nat, dk as nat);
        lemma_fits(h as nat, seq as nat, s as nat, dk as nat, len as nat);
    }
    let start = (h * seq + s) * dk;
    vstd::slice::slice_subrange(rows, start, start + dk)
}

impl<T: Copy> KvCache<T> {
    /// The key of head `h` at position `s`.
    pub fn key(&self, nh: usize, dk: usize, h: usize, s: usize) -> (r: &[T])
        requires
            self.wf(nh as nat, dk as nat),
            h < nh,
            s < self.seq,
        ensures
            r@ == row(self.k@, dk as nat, (h * self.seq + s) as nat),
            r@ == self.key_row(dk as nat, h as nat, s as nat),
            r@.len() == dk,
            forall|j: int|
                0 <= j < dk ==> #[trigger] r@[j] == self.k@[(h * self.seq + s) * dk + j],
    {
        row_at(self.k.as_slice(), nh, dk, self.seq, h, s)
    }

    /// The value of head `h` at position `s`.
    pub fn value(&self, nh: usize, dk: usize, h: usize, s: usize) -> (r: &[T])
        requires
            self.wf(nh as nat, dk as nat),
            h < nh,
            s < self.seq,
        ensures
            r@ == row(self.v@, dk as nat, (h * self.seq + s) as nat),
            r@ == self.value_row(dk as nat, h as nat, s as nat),
            r@.len() == dk,
            forall|j: int|
                0 <= j < dk ==> #[trigger] r@[j] == self.v@[(h * self.seq + s) * dk + j],
    {
        row_at(self.v.as_slice(), nh, dk, self.seq, h, s)
    }
}

impl<T> Default for KvCache<T> {
    /// A cache that has seen nothing.
    fn default() -> (r: Self)
        ensures
            r.k@ == Seq::<T>::empty(),
            r.v@ == Seq::<T>::empty(),
            r.seq == 0,
    {
        KvCache { k: Vec::new(), v: Vec::new(), seq: 0 }
    }
}

/// Two sequences of `n` rows are equal if their rows are.
proof fn lemma_rows_equal<T>(a: Seq<T>, b: Seq<T>, n: nat, dk: nat)
    requires
        a.len() == n * dk,
        b.len() == n * dk,
        forall|r: nat| r < n ==> #[trigger] row(a, dk, r) == row(b, dk, r),
    ensures
        a == b,
{
    assert forall|p: int| 0 <= p < a.len() implies a[p] == b[p] by {
        assert(dk > 0) by {
            if dk == 0 {
                assert(n * 0 == 0) by (nonlinear_arith);
            }
        }
        let r = (p / dk as int) as nat;
        let j = p % dk as int;
        vstd::arithmetic::div_mod::lemma_fundamental_div_mod(p, dk as int);
        vstd::arithmetic::mul::lemma_mul_is_commutative(dk as int, r as int);
        assert(r < n) by (nonlinear_arith)
            requires
                p == r * dk + j,
                0 <= j,
                p < n * dk,
        ;
        lemma_inside(r, n, dk);
        assert(row(a, dk, r)[j] == row(b, dk, r)[j]);
    }
    assert(a =~= b);
}

/// A new row of the first part of two.
proof fn lemma_row_in_front<T>(a: Seq<T>, b: Seq<T>, n: nat, dk: nat, r: nat)
    requires
        a.len() == n * dk,
        r < n,
    ensures
        row(a + b, dk, r) == row(a, dk, r),
{
    lemma_inside(r, n, dk);
    assert(row(a + b, dk, r) =~= row(a, dk, r));
}

/// A new row of the second part of two.
proof fn lemma_row_behind<T>(a: Seq<T>, b: Seq<T>, n: nat, m: nat, dk: nat, r: nat)
    requires
        a.len() == n * dk,
        b.len() == m * dk,
        r < m,
    ensures
        row(a + b, dk, n + r) == row(b, dk, r),
{
    lemma_inside(r, m, dk);
    assert((n + r) * dk == n * dk + r * dk) by (nonlinear_arith);
    assert(row(a + b, dk, n + r) =~= row(b, dk, r));
}

/// Taking in `t1` positions and then `t2` more leaves the same cache as taking in all of them at
/// once: a prompt read in one go and one read token by token are remembered alike.
pub proof fn law_append_in_parts<T>(
    start: Seq<T>,
    a: Seq<T>,
    b: Seq<T>,
    between: Seq<T>,
    stepwise: Seq<T>,
    at_once: Seq<T>,
    nh: nat,
    dk: nat,
    seq: nat,
    t1: nat,
    t2: nat,
)
    requires
        start.len() == nh * seq * dk,
        a.len() == t1 * nh * dk,
        b.len() == t2 * nh * dk,
        is_append(start, a, between, nh, dk, seq, t1),
        is_append(between, b, stepwise, nh, dk, seq + t1, t2),
        is_append(start, a + b, at_once, nh, dk, seq, t1 + t2),
    ensures
        stepwise == at_once,
{
    let all = seq + t1 + t2;
    let mid = seq + t1;
    assert forall|r: nat| r < nh * all implies #[trigger] row(stepwise, dk, r) == row(
        at_once,
        dk,
        r,
    ) by {
        assert(all > 0) by {
            if all == 0 {
                assert(nh * 0 == 0) by (nonlinear_arith);
            }
        }
        let h = r / all;
        let s = r % all;
        vstd::arithmetic::div_mod::lemma_fundamental_div_mod(r as int, all as int);
        vstd::arithmetic::mul::lemma_mul_is_commutative(all as int, h as int);
        assert(r == h * all + s);
        assert(h < nh) by (nonlinear_arith)
            requires
                r == h * all + s,
                r < nh * all,
                0 <= s,
        ;
        assert(row(stepwise, dk, h * (mid + t2) + s) == merged_row(between, b, nh, dk, mid, h, s));
        assert(row(at_once, dk, h * (seq + (t1 + t2)) + s) == merged_row(
            start,
            a + b,
            nh,
            dk,
            seq,
            h,
            s,
        ));
        if s < mid {
            assert(row(between, dk, h * (seq + t1) + s) == merged_row(start, a, nh, dk, seq, h, s));
            if s >= seq {
                let i = (s - seq) as nat;
                lemma_row_number(i, t1, h, nh);
                lemma_row_in_front(a, b, t1 * nh, dk, i * nh + h);
            }
        } else {
            let i = (s - mid) as nat;
            lemma_row_number(i, t2, h, nh);
            lemma_row_behind(a, b, t1 * nh, t2 * nh, dk, i * nh + h);
            assert((s - seq) * nh == t1 * nh + i * nh) by (nonlinear_arith)
                requires
                    s - seq == t1 + i,
            ;
        }
    }
    lemma_rows_equal(stepwise, at_once, nh * all, dk);
}

/// Feature `j` of row `r`.
proof fn lemma_feature<T>(rows: Seq<T>, n: nat, dk: nat, r: nat, j: nat)
    requires
        rows.len() == n * dk,
        r < n,
        j < dk,
    ensures
        r * dk + j < rows.len(),
        row(rows, dk, r).len() == dk,
        row(rows, dk, r)[j as int] == rows[(r * dk + j) as int],
{
    lemma_inside(r, n, dk);
}

/// What was taken in is found again, feature by feature: the rows of a new position lie one head
/// behind the other, and feature `j` of head `h` at the new position `i` is the one that stood
/// there. What was remembered before is found as it was.
pub proof fn law_append_places_features<T>(
    old_rows: Seq<T>,
    new_rows: Seq<T>,
    out: Seq<T>,
    nh: nat,
    dk: nat,
    seq: nat,
    t: nat,
)
    requires
        old_rows.len() == nh * seq * dk,
        new_rows.len() == t * nh * dk,
        is_append(old_rows, new_rows, out, nh, dk, seq, t),
    ensures
        out.len() == old_rows.len() + new_rows.len(),
        forall|h: nat, i: nat, j: nat|
            h < nh && i < t && j < dk ==> out[((h * (seq + t) + seq + i) * dk + j) as int]
                == #[trigger] new_rows[(i * (nh * dk) + h * dk + j) as int],
        forall|h: nat, s: nat, j: nat|
            h < nh && s < seq && j < dk ==> out[((h * (seq + t) + s) * dk + j) as int]
                == #[trigger] old_rows[((h * seq + s) * dk + j) as int],
{
    assert(nh * (seq + t) * dk == nh * seq * dk + t * nh * dk) by (nonlinear_arith);
    assert forall|h: nat, i: nat, j: nat| h < nh && i < t && j < dk implies out[((h * (seq + t) + seq
        + i) * dk + j) as int] == #[trigger] new_rows[(i * (nh * dk) + h * dk + j) as int] by {
        let s = seq + i;
        lemma_row_number(h, nh, s, seq + t);
        lemma_row_number(i, t, h, nh);
        assert(row(out, dk, h * (seq + t) + s) == merged_row(old_rows, new_rows, nh, dk, seq, h, s));
        lemma_feature(out, nh * (seq + t), dk, h * (seq + t) + s, j);
        lemma_feature(new_rows, t * nh, dk, i * nh + h, j);
        assert((i * nh + h) * dk == i * (nh * dk) + h * dk) by (nonlinear_arith);
    }
    assert forall|h: nat, s: nat, j: nat| h < nh && s < seq && j < dk implies out[((h * (seq + t) + s)
        * dk + j) as int] == #[trigger] old_rows[((h * seq + s) * dk + j) as int] by {
        lemma_row_number(h, nh, s, seq + t);
        lemma_row_number(h, nh, s, seq);
        assert(row(out, dk, h * (seq + t) + s) == merged_row(old_rows, new_rows, nh, dk, seq, h, s));
        lemma_feature(out, nh * (seq + t), dk, h * (seq + t) + s, j);
        lemma_feature(old_rows, nh * seq, dk, h * seq + s, j);
    }
}

/// After `append` the key and the value of head `h` at the new position `i` are the slices of what
/// came in, and the key and the value of an earlier position `s` are what they were. Here `before`
/// and `after` are the cache before and after.
pub proof fn law_cache_gives_back<T: Copy>(
    before: KvCache<T>,
    after: KvCache<T>,
    k_new: Seq<T>,
    v_new: Seq<T>,
    nh: nat,
    dk: nat,
    t: nat,
)
    requires
        before.wf(nh, dk),
        k_new.len() == t * nh * dk,
        v_new.len() == t * nh * dk,
        after.seq == before.seq + t,
        is_append(before.k@, k_new, after.k@, nh, dk, before.seq as nat, t),
        is_append(before.v@, v_new, after.v@, nh, dk, before.seq as nat, t),
    ensures
        forall|h: nat, i: nat| #![trigger after.key_row(dk, h, before.seq as nat + i)]
            h < nh && i < t ==> after.key_row(dk, h, before.seq as nat + i) == k_new.subrange(
                (i * nh * dk + h * dk) as int,
                (i * nh * dk + h * dk + dk) as int,
            ),
        forall|h: nat, i: nat| #![trigger after.value_row(dk, h, before.seq as nat + i)]
            h < nh && i < t ==> after.value_row(dk, h, before.seq as nat + i) == v_new.subrange(
                (i * nh * dk + h * dk) as int,
                (i * nh * dk + h * dk + dk) as int,
            ),
        forall|h: nat, s: nat|
            h < nh && s < before.seq ==> #[trigger] after.key_row(dk, h, s) == before.key_row(dk, h, s),
        forall|h: nat, s: nat|
            h < nh && s < before.seq ==> #[trigger] after.value_row(dk, h, s) == before.value_row(
                dk,
                h,
                s,
            ),
{
    let seq = before.seq as nat;
    assert forall|h: nat, i: nat| #![trigger after.key_row(dk, h, before.seq as nat + i)]
        h < nh && i < t implies after.key_row(dk, h, before.seq as nat + i) == k_new.subrange(
        (i * nh * dk + h * dk) as int,
        (i * nh * dk + h * dk + dk) as int,
    ) by {
        assert(row(after.k@, dk, h * (seq + t) + (seq + i)) == merged_row(
            before.k@,
            k_new,
            nh,
            dk,
            seq,
            h,
            seq + i,
        ));
        assert((i * nh + h) * dk == i * nh * dk + h * dk) by (nonlinear_arith);
    }
    assert forall|h: nat, i: nat| #![trigger after.value_row(dk, h, before.seq as nat + i)]
        h < nh && i < t implies after.value_row(dk, h, before.seq as nat + i) == v_new.subrange(
        (i * nh * dk + h * dk) as int,
        (i * nh * dk + h * dk + dk) as int,
    ) by {
        assert(row(after.v@, dk, h * (seq + t) + (seq + i)) == merged_row(
            before.v@,
            v_new,
            nh,
            dk,
            seq,
            h,
            seq + i,
        ));
        assert((i * nh + h) * dk == i * nh * dk + h * dk) by (nonlinear_arith);
    }
}

} // verus!
