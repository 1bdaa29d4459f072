//! Ranking by exact fractional scores.
//!
//! A score is held as a fraction `num / den` with `den > 0`, so that scores
//! such as `distinct + occurrences / 10` or a sum of reciprocal ranks compare
//! exactly. Sorting is a merge sort, best first; entries with equal scores
//! come out in no particular order.

use vstd::prelude::*;
use vstd::assert_multisets_equal;

verus! {

broadcast use {vstd::seq_lib::group_seq_properties, vstd::seq_lib::group_to_multiset_ensures};

/// An entry to rank: an item and its score `num / den`.
#[derive(Clone, Copy)]
pub struct Entry<T> {
    pub item: T,
    pub num: u128,
    pub den: u128,
}

/// The bound that keeps every cross product of two scores in `u128`.
pub open spec fn cross_ok<T>(x: Entry<T>, y: Entry<T>) -> bool {
    x.num * y.den < 0x1_0000_0000_0000_0000_0000_0000_0000_0000 && x.den > 0
}

/// Every pair of entries of `s` compares without overflow.
pub open spec fn fits<T>(s: Seq<Entry<T>>) -> bool {
    forall|i: int, j: int| 0 <= i < s.len() && 0 <= j < s.len() ==> cross_ok(#[trigger] s[i], #[trigger] s[j])
}

/// The score of `x` is at least that of `y`.
pub open spec fn score_ge<T>(x: Entry<T>, y: Entry<T>) -> bool {
    x.num * y.den >= y.num * x.den
}

/// Best first: every entry scores at least as high as every later one.
pub open spec fn sorted_desc<T>(s: Seq<Entry<T>>) -> bool {
    forall|i: int, j: int| 0 <= i < j < s.len() ==> score_ge(#[trigger] s[i], #[trigger] s[j])
}

proof fn lemma_ge_trans<T>(x: Entry<T>, y: Entry<T>, z: Entry<T>)
    requires
        x.den > 0,
        y.den > 0,
        z.den > 0,
        score_ge(x, y),
        score_ge(y, z),
    ensures
        score_ge(x, z),
{
    let (xn, xd, yn, yd, zn, zd) = (
        x.num as int,
        x.den as int,
        y.num as int,
        y.den as int,
        z.num as int,
        z.den as int,
    );
    assert(xn * yd * zd >= yn * xd * zd) by (nonlinear_arith)
        requires
            xn * yd >= yn * xd,
            zd > 0,
    ;
    assert(yn * zd * xd >= zn * yd * xd) by (nonlinear_arith)
        requires
            yn * zd >= zn * yd,
            xd > 0,
    ;
    assert(yn * xd * zd == yn * zd * xd) by (nonlinear_arith);
    assert(xn * yd * zd >= zn * yd * xd);
    assert((xn * zd) * yd >= (zn * xd) * yd) by (nonlinear_arith)
        requires
            xn * yd * zd >= zn * yd * xd,
    ;
    assert(xn * zd >= zn * xd) by (nonlinear_arith)
        requires
            (xn * zd) * yd >= (zn * xd) * yd,
            yd > 0,
    ;
}

/// Whether `x` scores at least as high as `y`.
pub fn ge<T: Copy>(x: Entry<T>, y: Entry<T>) -> (r: bool)
    requires
        cross_ok(x, y),
        cross_ok(y, x),
    ensures
        r == score_ge(x, y),
{
    x.num * y.den >= y.num * x.den
}

/// Merge two best-first runs.
fn merge<T: Copy>(a: Vec<Entry<T>>, b: Vec<Entry<T>>) -> (out: Vec<Entry<T>>)
    requires
        sorted_desc(a@),
        sorted_desc(b@),
        fits(a@ + b@),
    ensures
        sorted_desc(out@),
        out@.to_multiset() == (a@ + b@).to_multiset(),
        out@.len() == a@.len() + b@.len(),
{
    let ghost ab = a@ + b@;
    let mut out: Vec<Entry<T>> = Vec::new();
    let mut i: usize = 0;
    let mut j: usize = 0;
    while i < a.len() || j < b.len()
        invariant
            ab == a@ + b@,
            sorted_desc(a@),
            sorted_desc(b@),
            fits(ab),
            0 <= i <= a@.len(),
            0 <= j <= b@.len(),
            out@.len() == i + j,
            sorted_desc(out@),
            out@.to_multiset() == a@.take(i as int).to_multiset().add(b@.take(j as int).to_multiset()),
            out@.len() > 0 && i < a@.len() ==> score_ge(out@.last(), a@[i as int]),
            out@.len() > 0 && j < b@.len() ==> score_ge(out@.last(), b@[j as int]),
            forall|k: int| 0 <= k < out@.len() ==> #[trigger] out@[k].den > 0,
        decreases a@.len() + b@.len() - i - j,
    {
        let take_a = if i >= a.len() {
            false
        } else if j >= b.len() {
            true
        } else {
            proof {
                assert(ab[i as int] == a@[i as int]);
                assert(ab[a@.len() + j] == b@[j as int]);
                assert(cross_ok(ab[i as int], ab[a@.len() + j]));
                assert(cross_ok(ab[a@.len() + j], ab[i as int]));
            }
            ge(a[i], b[j])
        };
        let e = if take_a {
            a[i]
        } else {
            b[j]
        };
        proof {
            assert(ab[i as int] == a@[i as int] || i >= a@.len());
            if i < a@.len() {
                assert(ab[i as int] == a@[i as int]);
                assert(cross_ok(ab[i as int], ab[i as int]));
            }
            if j < b@.len() {
                assert(ab[a@.len() + j] == b@[j as int]);
                assert(cross_ok(ab[a@.len() + j], ab[a@.len() + j]));
            }
            assert(e.den > 0);
            assert forall|k: int| 0 <= k < out@.len() implies score_ge(#[trigger] out@[k], e) by {
                if k < out@.len() - 1 {
                    assert(score_ge(out@[k], out@.last()));
                    lemma_ge_trans(out@[k], out@.last(), e);
                }
            }
            let ghost na = if take_a { i + 1 } else { i as int };
            let ghost nb = if take_a { j as int } else { j + 1 };
            if take_a {
                assert(a@.take(i + 1) =~= a@.take(i as int).push(a@[i as int]));
            } else {
                assert(b@.take(j + 1) =~= b@.take(j as int).push(b@[j as int]));
            }
            if take_a && i + 1 < a@.len() {
                assert(score_ge(a@[i as int], a@[i + 1]));
            }
            if !take_a && j + 1 < b@.len() {
                assert(score_ge(b@[j as int], b@[j + 1]));
            }
            if take_a && j < b@.len() {
                assert(score_ge(a@[i as int], b@[j as int]));
            }
            if !take_a && i < a@.len() {
                assert(!score_ge(a@[i as int], b@[j as int]));
                assert(score_ge(b@[j as int], a@[i as int]));
            }
        }
        out.push(e);
        if take_a {
            i = i + 1;
        } else {
            j = j + 1;
        }
    }
    proof {
        assert(a@.take(a@.len() as int) =~= a@);
        assert(b@.take(b@.len() as int) =~= b@);
        vstd::seq_lib::lemma_multiset_commutative(a@, b@);
    }
    out
}

/// Sort entries best first; the result holds the same entries.
pub fn sort_desc<T: Copy>(v: Vec<Entry<T>>) -> (out: Vec<Entry<T>>)
    requires
        fits(v@),
    ensures
        sorted_desc(out@),
        out@.to_multiset() == v@.to_multiset(),
        out@.len() == v@.len(),
    decreases v@.len(),
{
    if v.len() <= 1 {
        return v;
    }
    let ghost v0 = v@;
    let mut left = v;
    let mid = left.len() / 2;
    let right = left.split_off(mid);
    proof {
        assert(v0 =~= left@ + right@);
        assert(fits(left@)) by {
            assert forall|i: int, j: int|
                0 <= i < left@.len() && 0 <= j < left@.len() implies cross_ok(
                #[trigger] left@[i],
                #[trigger] left@[j],
            ) by {
                assert(left@[i] == v0[i] && left@[j] == v0[j]);
            }
        }
        assert(fits(right@)) by {
            assert forall|i: int, j: int|
                0 <= i < right@.len() && 0 <= j < right@.len() implies cross_ok(
                #[trigger] right@[i],
                #[trigger] right@[j],
            ) by {
                assert(right@[i] == v0[mid + i] && right@[j] == v0[mid + j]);
            }
        }
    }
    let ghost l0 = left@;
    let ghost r0 = right@;
    let sl = sort_desc(left);
    let sr = sort_desc(right);
    proof {
        vstd::seq_lib::lemma_multiset_commutative(sl@, sr@);
        vstd::seq_lib::lemma_multiset_commutative(l0, r0);
        assert forall|i: int, j: int|
            0 <= i < (sl@ + sr@).len() && 0 <= j < (sl@ + sr@).len() implies cross_ok(
            #[trigger] (sl@ + sr@)[i],
            #[trigger] (sl@ + sr@)[j],
        ) by {
            let x = (sl@ + sr@)[i];
            let y = (sl@ + sr@)[j];
            assert((sl@ + sr@).to_multiset().count(x) > 0);
            assert((sl@ + sr@).to_multiset().count(y) > 0);
            assert(v0.to_multiset().count(x) > 0);
            assert(v0.to_multiset().count(y) > 0);
            assert(v0.contains(x));
            assert(v0.contains(y));
            let p = choose|p: int| 0 <= p < v0.len() && v0[p] == x;
            let q = choose|q: int| 0 <= q < v0.len() && v0[q] == y;
            assert(cross_ok(v0[p], v0[q]));
        }
    }
    merge(sl, sr)
}

} // verus!
