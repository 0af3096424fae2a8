//! Jaro string similarity over exact rational numbers.
//!
//! The similarity of two character sequences is the classic Jaro score:
//! with `m` matching characters (greedy matching inside a window of
//! radius `max(|a|,|b|)/2 - 1`) and `t` half the number of transposed
//! matches, the score is `(m/|a| + m/|b| + (m-t)/m) / 3`.  The score is
//! kept as an exact fraction `(numerator, denominator)` so that the
//! resolver's thresholds can be decided without floating point.

use vstd::prelude::*;

verus! {

/// Window radius for Jaro matching.
pub open spec fn jaro_window(la: int, lb: int) -> int {
    let h = (if la > lb {
        la
    } else {
        lb
    }) / 2;
    if h >= 1 {
        h - 1
    } else {
        0
    }
}

/// Smallest index in `[j, hi)` holding an unused character equal to `c`.
pub open spec fn first_free(c: char, b: Seq<char>, used: Seq<bool>, j: int, hi: int) -> Option<
    int,
>
    decreases hi - j,
{
    if j < 0 || j >= hi {
        None
    } else if !used[j] && b[j] == c {
        Some(j)
    } else {
        first_free(c, b, used, j + 1, hi)
    }
}

/// Lower end of the match window for position `i`.
pub open spec fn window_lo(i: int, d: int) -> int {
    if i > d {
        i - d
    } else {
        0
    }
}

/// Upper end (exclusive) of the match window for position `i`.
pub open spec fn window_hi(i: int, d: int, lb: int) -> int {
    if i + d + 1 < lb {
        i + d + 1
    } else {
        lb
    }
}

/// The pair of used-flag sequences (for `a` and for `b`) after greedily
/// matching the first `i` characters of `a` against `b`.
pub open spec fn jaro_used(a: Seq<char>, b: Seq<char>, i: int) -> (Seq<bool>, Seq<bool>)
    decreases i,
{
    if i <= 0 {
        (Seq::new(a.len(), |k: int| false), Seq::new(b.len(), |k: int| false))
    } else {
        let prev = jaro_used(a, b, i - 1);
        let d = jaro_window(a.len() as int, b.len() as int);
        match first_free(a[i - 1], b, prev.1, window_lo(i - 1, d), window_hi(i - 1, d, b.len() as int)) {
            Some(j) => (prev.0.update(i - 1, true), prev.1.update(j, true)),
            None => prev,
        }
    }
}

/// The characters of `s` at used positions below `n`, in order.
pub open spec fn masked(s: Seq<char>, used: Seq<bool>, n: int) -> Seq<char>
    decreases n,
{
    if n <= 0 {
        Seq::empty()
    } else {
        masked(s, used, n - 1) + (if used[n - 1] {
            seq![s[n - 1]]
        } else {
            Seq::empty()
        })
    }
}

/// Positions below `n` where `x` and `y` differ.
pub open spec fn mismatches(x: Seq<char>, y: Seq<char>, n: int) -> int
    decreases n,
{
    if n <= 0 {
        0
    } else {
        mismatches(x, y, n - 1) + (if x[n - 1] != y[n - 1] {
            1int
        } else {
            0int
        })
    }
}

/// The Jaro similarity of `a` and `b` as an exact non-negative fraction
/// `(numerator, denominator)`, numerator at most the denominator.
pub open spec fn jaro_frac(a: Seq<char>, b: Seq<char>) -> (int, int) {
    let la = a.len() as int;
    let lb = b.len() as int;
    if la == 0 && lb == 0 {
        (1, 1)
    } else if la == 0 || lb == 0 {
        (0, 1)
    } else {
        let u = jaro_used(a, b, la);
        let ma = masked(a, u.0, la);
        let mb = masked(b, u.1, lb);
        let m = ma.len() as int;
        if m == 0 {
            (0, 1)
        } else {
            let t = mismatches(ma, mb, m) / 2;
            (m * m * (la + lb) + la * lb * (m - t), 3 * la * lb * m)
        }
    }
}

proof fn lemma_first_free(c: char, b: Seq<char>, used: Seq<bool>, j: int, hi: int)
    requires
        0 <= j,
        hi <= b.len(),
    ensures
        match first_free(c, b, used, j, hi) {
            Some(k) => j <= k < hi && !used[k] && b[k] == c,
            None => forall|t: int| j <= t < hi ==> !(!used[t] && b[t] == c),
        },
    decreases hi - j,
{
    if j < hi {
        if !(!used[j] && b[j] == c) {
            lemma_first_free(c, b, used, j + 1, hi);
        }
    }
}

proof fn lemma_first_free_skip(c: char, b: Seq<char>, used: Seq<bool>, lo: int, j: int, hi: int)
    requires
        0 <= lo <= j <= hi,
        forall|t: int| lo <= t < j ==> !(!used[t] && b[t] == c),
    ensures
        first_free(c, b, used, lo, hi) == first_free(c, b, used, j, hi),
    decreases j - lo,
{
    if lo < j {
        lemma_first_free_skip(c, b, used, lo + 1, j, hi);
    }
}

/// Length of a masked selection is at most `n`.
proof fn lemma_masked_len(s: Seq<char>, used: Seq<bool>, n: int)
    ensures
        masked(s, used, n).len() <= (if n >= 0 {
            n
        } else {
            0
        }),
    decreases n,
{
    if n > 0 {
        lemma_masked_len(s, used, n - 1);
    }
}

/// Flipping an unused position inside the prefix grows the selection by
/// exactly one.
proof fn lemma_masked_update(s: Seq<char>, used: Seq<bool>, n: int, j: int)
    requires
        0 <= j < n,
        n <= used.len(),
        !used[j],
    ensures
        masked(s, used.update(j, true), n).len() == masked(s, used, n).len() + 1,
    decreases n,
{
    if n - 1 == j {
        assert(forall|k: int| 0 <= k < n - 1 ==> used.update(j, true)[k] == used[k]);
        lemma_masked_same(s, used.update(j, true), used, n - 1);
    } else {
        lemma_masked_update(s, used, n - 1, j);
        assert(used.update(j, true)[n - 1] == used[n - 1]);
    }
}

/// Selections agree when the flags agree below `n`.
proof fn lemma_masked_same(s: Seq<char>, u1: Seq<bool>, u2: Seq<bool>, n: int)
    requires
        forall|k: int| 0 <= k < n ==> u1[k] == u2[k],
    ensures
        masked(s, u1, n) == masked(s, u2, n),
    decreases n,
{
    if n > 0 {
        lemma_masked_same(s, u1, u2, n - 1);
    }
}

/// Flipping a position at or past `n` leaves the prefix selection alone.
proof fn lemma_masked_update_beyond(s: Seq<char>, used: Seq<bool>, n: int, j: int)
    requires
        n <= j < used.len(),
    ensures
        masked(s, used.update(j, true), n) == masked(s, used, n),
{
    assert(forall|k: int| 0 <= k < n ==> used.update(j, true)[k] == used[k]);
    lemma_masked_same(s, used.update(j, true), used, n);
}

/// Bounds on the mismatch count.
proof fn lemma_mismatches_bounds(x: Seq<char>, y: Seq<char>, n: int)
    ensures
        0 <= mismatches(x, y, n),
        mismatches(x, y, n) <= (if n >= 0 {
            n
        } else {
            0
        }),
    decreases n,
{
    if n > 0 {
        lemma_mismatches_bounds(x, y, n - 1);
    }
}

/// Well-formedness of the greedy match state: flag lengths, untouched
/// tail of `a`, and equal numbers of used positions on both sides.
proof fn lemma_jaro_used_wf(a: Seq<char>, b: Seq<char>, i: int)
    requires
        0 <= i <= a.len(),
    ensures
        ({
            let u = jaro_used(a, b, i);
            &&& u.0.len() == a.len()
            &&& u.1.len() == b.len()
            &&& forall|k: int| i <= k < a.len() ==> !u.0[k]
            &&& masked(a, u.0, a.len() as int).len() == masked(b, u.1, b.len() as int).len()
            &&& masked(a, u.0, a.len() as int).len() <= i
        }),
    decreases i,
{
    let u = jaro_used(a, b, i);
    let la = a.len() as int;
    let lb = b.len() as int;
    if i <= 0 {
        lemma_masked_all_false(a, u.0, la);
        lemma_masked_all_false(b, u.1, lb);
    } else {
        let prev = jaro_used(a, b, i - 1);
        lemma_jaro_used_wf(a, b, i - 1);
        let d = jaro_window(la, lb);
        let lo = window_lo(i - 1, d);
        let hi = window_hi(i - 1, d, lb);
        lemma_first_free(a[i - 1], b, prev.1, lo, hi);
        match first_free(a[i - 1], b, prev.1, lo, hi) {
            Some(j) => {
                lemma_masked_update(b, prev.1, lb, j);
                lemma_masked_update(a, prev.0, la, i - 1);
            },
            None => {},
        }
    }
}

/// A selection over all-false flags is empty.
proof fn lemma_masked_all_false(s: Seq<char>, used: Seq<bool>, n: int)
    requires
        forall|k: int| 0 <= k < n ==> !used[k],
    ensures
        masked(s, used, n).len() == 0,
    decreases n,
{
    if n > 0 {
        lemma_masked_all_false(s, used, n - 1);
    }
}

/// The Jaro fraction is a well-formed probability: non-negative, with a
/// positive denominator, and at most one.
pub proof fn lemma_jaro_bounds(a: Seq<char>, b: Seq<char>)
    ensures
        ({
            let f = jaro_frac(a, b);
            0 <= f.0 <= f.1 && 0 < f.1
        }),
{
    let la = a.len() as int;
    let lb = b.len() as int;
    if la > 0 && lb > 0 {
        let u = jaro_used(a, b, la);
        let ma = masked(a, u.0, la);
        let mb = masked(b, u.1, lb);
        let m = ma.len() as int;
        lemma_jaro_used_wf(a, b, la);
        lemma_masked_len(a, u.0, la);
        lemma_masked_len(b, u.1, lb);
        if m > 0 {
            let raw = mismatches(ma, mb, m);
            lemma_mismatches_bounds(ma, mb, m);
            let t = raw / 2;
            assert(0 <= t <= m);
            assert(m <= la && m <= lb);
            let num = m * m * (la + lb) + la * lb * (m - t);
            let den = 3 * la * lb * m;
            assert(0 <= num <= den) by (nonlinear_arith)
                requires
                    num == m * m * (la + lb) + la * lb * (m - t),
                    den == 3 * la * lb * m,
                    0 < m <= la,
                    m <= lb,
                    0 <= t <= m,
            ;
            assert(0 < den) by (nonlinear_arith)
                requires
                    den == 3 * la * lb * m,
                    0 < m,
                    0 < la,
                    0 < lb,
            ;
        }
    }
}

/// Greedy matching of a sequence against itself matches every position
/// with itself.
proof fn lemma_jaro_used_self(a: Seq<char>, i: int)
    requires
        0 <= i <= a.len(),
    ensures
        jaro_used(a, a, i).0 =~= Seq::new(a.len(), |k: int| k < i),
        jaro_used(a, a, i).1 =~= Seq::new(a.len(), |k: int| k < i),
    decreases i,
{
    let la = a.len() as int;
    if i > 0 {
        lemma_jaro_used_self(a, i - 1);
        let prev = jaro_used(a, a, i - 1);
        let d = jaro_window(la, la);
        let lo = window_lo(i - 1, d);
        let hi = window_hi(i - 1, d, la);
        assert(d >= 0);
        assert(lo <= i - 1 < hi);
        assert(forall|t: int| lo <= t < i - 1 ==> prev.1[t]);
        lemma_first_free_skip(a[i - 1], a, prev.1, lo, i - 1, hi);
        assert(!prev.1[i - 1]);
        assert(first_free(a[i - 1], a, prev.1, i - 1, hi) == Some(i - 1));
    }
}

/// A selection with every flag below `n` set is the prefix itself.
proof fn lemma_masked_all_true(s: Seq<char>, used: Seq<bool>, n: int)
    requires
        0 <= n <= s.len(),
        forall|k: int| 0 <= k < n ==> used[k],
    ensures
        masked(s, used, n) =~= s.subrange(0, n),
    decreases n,
{
    if n > 0 {
        lemma_masked_all_true(s, used, n - 1);
        assert(masked(s, used, n) =~= s.subrange(0, n));
    }
}

/// Equal sequences have no mismatches.
proof fn lemma_mismatches_self(x: Seq<char>, n: int)
    requires
        n <= x.len(),
    ensures
        mismatches(x, x, n) == 0,
    decreases n,
{
    if n > 0 {
        lemma_mismatches_self(x, n - 1);
    }
}

/// A selection as long as its prefix has every flag set.
proof fn lemma_masked_full(s: Seq<char>, used: Seq<bool>, n: int)
    requires
        masked(s, used, n).len() == n,
    ensures
        forall|k: int| 0 <= k < n ==> used[k],
    decreases n,
{
    if n > 0 {
        lemma_masked_len(s, used, n - 1);
        assert(used[n - 1]);
        lemma_masked_full(s, used, n - 1);
    }
}

/// A prefix without mismatches agrees pointwise.
proof fn lemma_mismatches_zero(x: Seq<char>, y: Seq<char>, n: int)
    requires
        mismatches(x, y, n) == 0,
    ensures
        forall|k: int| 0 <= k < n ==> x[k] == y[k],
    decreases n,
{
    if n > 0 {
        lemma_mismatches_bounds(x, y, n - 1);
        lemma_mismatches_zero(x, y, n - 1);
    }
}

/// A single mismatch singles out one position: everything else agrees.
proof fn lemma_one_mismatch_position(x: Seq<char>, y: Seq<char>, n: int) -> (k: int)
    requires
        mismatches(x, y, n) == 1,
    ensures
        0 <= k < n,
        x[k] != y[k],
        forall|t: int| 0 <= t < n && t != k ==> x[t] == y[t],
    decreases n,
{
    lemma_mismatches_bounds(x, y, n - 1);
    if x[n - 1] != y[n - 1] {
        lemma_mismatches_zero(x, y, n - 1);
        n - 1
    } else {
        lemma_one_mismatch_position(x, y, n - 1)
    }
}

/// Sequences of equal length that differ in exactly one position have
/// different multisets.
proof fn lemma_one_mismatch_multisets_differ(x: Seq<char>, y: Seq<char>, k: int)
    requires
        x.len() == y.len(),
        0 <= k < x.len(),
        x[k] != y[k],
        forall|t: int| 0 <= t < x.len() && t != k ==> x[t] == y[t],
    ensures
        x.to_multiset() != y.to_multiset(),
{
    broadcast use vstd::seq_lib::group_to_multiset_ensures;
    broadcast use vstd::multiset::group_multiset_axioms;

    assert(y =~= x.update(k, y[k]));
    vstd::seq_lib::to_multiset_update(x, k, y[k]);
    assert(x.contains(x[k]));
    vstd::seq_lib::to_multiset_contains(x, x[k]);
    assert(y.to_multiset().count(x[k]) == x.to_multiset().count(x[k]) - 1);
}

/// Flipping an unused position adds its character to the selection's
/// multiset.
proof fn lemma_masked_update_multiset(s: Seq<char>, used: Seq<bool>, n: int, j: int)
    requires
        0 <= j < n,
        n <= used.len(),
        !used[j],
    ensures
        masked(s, used.update(j, true), n).to_multiset() == masked(s, used, n).to_multiset().insert(
            s[j],
        ),
    decreases n,
{
    broadcast use vstd::seq_lib::group_to_multiset_ensures;
    broadcast use vstd::multiset::group_multiset_axioms;

    let upd = used.update(j, true);
    if n - 1 == j {
        assert(forall|k: int| 0 <= k < n - 1 ==> upd[k] == used[k]);
        lemma_masked_same(s, upd, used, n - 1);
        assert(masked(s, upd, n) =~= masked(s, upd, n - 1).push(s[j]));
        vstd::seq_lib::to_multiset_build(masked(s, upd, n - 1), s[j]);
        assert(masked(s, used, n) == masked(s, used, n - 1));
    } else {
        lemma_masked_update_multiset(s, used, n - 1, j);
        assert(upd[n - 1] == used[n - 1]);
        if used[n - 1] {
            assert(masked(s, upd, n) =~= masked(s, upd, n - 1).push(s[n - 1]));
            assert(masked(s, used, n) =~= masked(s, used, n - 1).push(s[n - 1]));
            vstd::seq_lib::to_multiset_build(masked(s, upd, n - 1), s[n - 1]);
            vstd::seq_lib::to_multiset_build(masked(s, used, n - 1), s[n - 1]);
            assert(masked(s, upd, n).to_multiset() =~= masked(s, used, n).to_multiset().insert(
                s[j],
            ));
        }
    }
}

/// Both sides of the greedy matching select the same characters.
proof fn lemma_jaro_used_multiset(a: Seq<char>, b: Seq<char>, i: int)
    requires
        0 <= i <= a.len(),
    ensures
        ({
            let u = jaro_used(a, b, i);
            masked(a, u.0, a.len() as int).to_multiset() == masked(
                b,
                u.1,
                b.len() as int,
            ).to_multiset()
        }),
    decreases i,
{
    let la = a.len() as int;
    let lb = b.len() as int;
    let u = jaro_used(a, b, i);
    if i <= 0 {
        lemma_masked_all_false(a, u.0, la);
        lemma_masked_all_false(b, u.1, lb);
        assert(masked(a, u.0, la) =~= masked(b, u.1, lb));
    } else {
        let prev = jaro_used(a, b, i - 1);
        lemma_jaro_used_multiset(a, b, i - 1);
        lemma_jaro_used_wf(a, b, i - 1);
        let d = jaro_window(la, lb);
        let lo = window_lo(i - 1, d);
        let hi = window_hi(i - 1, d, lb);
        lemma_first_free(a[i - 1], b, prev.1, lo, hi);
        match first_free(a[i - 1], b, prev.1, lo, hi) {
            Some(j) => {
                lemma_masked_update_multiset(a, prev.0, la, i - 1);
                lemma_masked_update_multiset(b, prev.1, lb, j);
                assert(b[j] == a[i - 1]);
            },
            None => {},
        }
    }
}

/// A similarity of one happens only between equal sequences (and always
/// between them).
pub proof fn lemma_jaro_one_means_equal(a: Seq<char>, b: Seq<char>)
    requires
        jaro_frac(a, b).0 == jaro_frac(a, b).1,
    ensures
        a == b,
{
    let la = a.len() as int;
    let lb = b.len() as int;
    if la == 0 && lb == 0 {
        assert(a =~= b);
    } else if la == 0 || lb == 0 {
        assert(false);
    } else {
        let u = jaro_used(a, b, la);
        let ma = masked(a, u.0, la);
        let mb = masked(b, u.1, lb);
        let m = ma.len() as int;
        lemma_jaro_used_wf(a, b, la);
        lemma_masked_len(a, u.0, la);
        lemma_masked_len(b, u.1, lb);
        if m == 0 {
            assert(false);
        } else {
            let raw = mismatches(ma, mb, m);
            lemma_mismatches_bounds(ma, mb, m);
            let t = raw / 2;
            assert(m == la && m == lb && t == 0) by (nonlinear_arith)
                requires
                    m * m * (la + lb) + la * lb * (m - t) == 3 * la * lb * m,
                    0 < m <= la,
                    m <= lb,
                    0 <= t,
            ;
            assert(raw <= 1);
            lemma_masked_full(a, u.0, la);
            lemma_masked_full(b, u.1, lb);
            lemma_masked_all_true(a, u.0, la);
            lemma_masked_all_true(b, u.1, lb);
            assert(ma =~= a);
            assert(mb =~= b);
            if raw == 0 {
                lemma_mismatches_zero(ma, mb, m);
                assert(a =~= b);
            } else {
                let k = lemma_one_mismatch_position(ma, mb, m);
                lemma_one_mismatch_multisets_differ(ma, mb, k);
                lemma_jaro_used_multiset(a, b, la);
                assert(false);
            }
        }
    }
}

/// A sequence is fully similar to itself: the fraction equals one.
pub proof fn lemma_jaro_self(a: Seq<char>)
    ensures
        jaro_frac(a, a).0 == jaro_frac(a, a).1,
{
    let la = a.len() as int;
    if la > 0 {
        lemma_jaro_used_self(a, la);
        let u = jaro_used(a, a, la);
        lemma_masked_all_true(a, u.0, la);
        lemma_masked_all_true(a, u.1, la);
        let ma = masked(a, u.0, la);
        assert(ma =~= a);
        let m = ma.len() as int;
        assert(m == la);
        lemma_mismatches_self(ma, m);
        assert(jaro_frac(a, a).0 == m * m * (la + la) + la * la * m);
        assert(m * m * (la + la) + la * la * m == 3 * la * la * m) by (nonlinear_arith)
            requires
                m == la,
        ;
    }
}

/// Computes the Jaro fraction of two character vectors.
pub fn jaro(a: &Vec<char>, b: &Vec<char>) -> (r: (u64, u64))
    requires
        a@.len() < 0x100000,
        b@.len() < 0x100000,
    ensures
        r.0 == jaro_frac(a@, b@).0,
        r.1 == jaro_frac(a@, b@).1,
        r.0 <= r.1,
        1 <= r.1 < 0x4000000000000000,
{
    proof {
        lemma_jaro_bounds(a@, b@);
    }
    let la = a.len();
    let lb = b.len();
    if la == 0 && lb == 0 {
        return (1, 1);
    }
    if la == 0 || lb == 0 {
        return (0, 1);
    }
    let maxlen = if la > lb {
        la
    } else {
        lb
    };
    let h = maxlen / 2;
    let d: usize = if h >= 1 {
        h - 1
    } else {
        0
    };
    let mut bf: Vec<bool> = Vec::new();
    let mut k: usize = 0;
    while k < lb
        invariant
            k <= lb,
            bf@.len() == k,
            forall|t: int| 0 <= t < k ==> !bf@[t],
        decreases lb - k,
    {
        bf.push(false);
        k = k + 1;
    }
    proof {
        assert(bf@ =~= jaro_used(a@, b@, 0).1);
        assert(masked(a@, jaro_used(a@, b@, 0).0, 0) =~= Seq::<char>::empty());
        lemma_jaro_used_wf(a@, b@, 0);
        lemma_masked_all_false(b@, jaro_used(a@, b@, 0).1, lb as int);
    }
    let mut ma: Vec<char> = Vec::new();
    let mut i: usize = 0;
    while i < la
        invariant
            i <= la,
            la == a@.len() < 0x100000,
            lb == b@.len() < 0x100000,
            d == jaro_window(la as int, lb as int),
            bf@ == jaro_used(a@, b@, i as int).1,
            ma@ == masked(a@, jaro_used(a@, b@, i as int).0, i as int),
            ma@.len() == masked(b@, bf@, lb as int).len(),
            bf@.len() == lb,
        decreases la - i,
    {
        let ghost prev = jaro_used(a@, b@, i as int);
        proof {
            lemma_jaro_used_wf(a@, b@, i as int);
        }
        let lo: usize = if i > d {
            i - d
        } else {
            0
        };
        let hi: usize = if i + d + 1 < lb {
            i + d + 1
        } else {
            lb
        };
        let c = a[i];
        let mut j: usize = if lo < hi {
            lo
        } else {
            hi
        };
        let mut found: bool = false;
        let mut at: usize = 0;
        while j < hi && !found
            invariant
                j <= hi,
                lo < hi ==> lo <= j,
                lo >= hi ==> j == hi,
                hi <= lb,
                bf@.len() == lb,
                lb == b@.len(),
                i < a@.len(),
                c == a@[i as int],
                !found ==> forall|t: int| lo <= t < j ==> !(!bf@[t] && b@[t] == c),
                found ==> lo <= at < hi && !bf@[at as int] && b@[at as int] == c && first_free(
                    c,
                    b@,
                    bf@,
                    lo as int,
                    hi as int,
                ) == Some(at as int),
            decreases hi - j + (if found {
                0int
            } else {
                1int
            }),
        {
            if !bf[j] && b[j] == c {
                found = true;
                at = j;
                proof {
                    lemma_first_free_skip(c, b@, bf@, lo as int, j as int, hi as int);
                }
            } else {
                j = j + 1;
            }
        }
        proof {
            if !found {
                if lo < hi {
                    lemma_first_free_skip(c, b@, bf@, lo as int, hi as int, hi as int);
                }
                assert(first_free(c, b@, bf@, lo as int, hi as int) is None);
            }
            assert(window_lo(i as int, d as int) == lo as int);
            assert(window_hi(i as int, d as int, lb as int) == hi as int);
        }
        if found {
            bf.set(at, true);
            ma.push(c);
            proof {
                let next = jaro_used(a@, b@, i as int + 1);
                assert(next.1 =~= prev.1.update(at as int, true));
                assert(next.0 =~= prev.0.update(i as int, true));
                assert(bf@ == next.1);
                lemma_masked_update_beyond(a@, prev.0, i as int, i as int);
                lemma_masked_same(a@, next.0, prev.0, i as int);
                assert(masked(a@, next.0, i as int + 1) =~= masked(a@, next.0, i as int) + seq![
                    a@[i as int],
                ]);
                assert(ma@ == masked(a@, next.0, i as int + 1));
                lemma_masked_update(b@, prev.1, lb as int, at as int);
            }
        } else {
            proof {
                let next = jaro_used(a@, b@, i as int + 1);
                assert(next == prev);
                assert(!prev.0[i as int]);
                assert(masked(a@, next.0, i as int + 1) =~= masked(a@, next.0, i as int));
            }
        }
        i = i + 1;
    }
    // collect the matched characters of b in index order
    let mut mb: Vec<char> = Vec::new();
    let mut j: usize = 0;
    while j < lb
        invariant
            j <= lb,
            lb == b@.len(),
            bf@.len() == lb,
            mb@ == masked(b@, bf@, j as int),
        decreases lb - j,
    {
        if bf[j] {
            mb.push(b[j]);
        }
        proof {
            assert(masked(b@, bf@, j as int + 1) =~= masked(b@, bf@, j as int) + (if bf@[j as int] {
                seq![b@[j as int]]
            } else {
                Seq::<char>::empty()
            }));
        }
        j = j + 1;
    }
    let m = ma.len();
    if m == 0 {
        return (0, 1);
    }
    // count transposed matches
    let mut raw: usize = 0;
    let mut k2: usize = 0;
    while k2 < m
        invariant
            k2 <= m,
            m == ma@.len() == mb@.len(),
            raw == mismatches(ma@, mb@, k2 as int),
            raw <= k2,
        decreases m - k2,
    {
        if ma[k2] != mb[k2] {
            raw = raw + 1;
        }
        k2 = k2 + 1;
    }
    let t: usize = raw / 2;
    proof {
        lemma_jaro_used_wf(a@, b@, la as int);
        lemma_masked_len(a@, jaro_used(a@, b@, la as int).0, la as int);
        lemma_masked_len(b@, jaro_used(a@, b@, la as int).1, lb as int);
        assert(m <= la && m <= lb);
    }
    let mw: u64 = m as u64;
    let law: u64 = la as u64;
    let lbw: u64 = lb as u64;
    let tw: u64 = t as u64;
    proof {
        assert(mw * mw < 0x10000000000 && mw * mw * (law + lbw) < 0x2000000000000000 && law * lbw
            < 0x10000000000 && law * lbw * (mw - tw) < 0x2000000000000000 && mw * mw * (law + lbw)
            + law * lbw * (mw - tw) < 0x4000000000000000 && 3 * law * lbw < 0x30000000000 && 3
            * law * lbw * mw < 0x4000000000000000) by (nonlinear_arith)
            requires
                0 < mw <= law < 0x100000,
                mw <= lbw < 0x100000,
                0 <= tw <= mw,
        ;
    }
    let num: u64 = mw * mw * (law + lbw) + law * lbw * (mw - tw);
    let den: u64 = 3 * law * lbw * mw;
    (num, den)
}

} // verus!
