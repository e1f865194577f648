//! Multiples of a collection of factors below an exclusive bound, and
//! their sum.
//!
//! The result of the generator is modelled by `multiples_upto`: the
//! ascending, duplicate-free sequence of every value that is at least one,
//! strictly below the bound, and divisible by at least one factor. The
//! executable functions are proved to return exactly that sequence, and
//! its sum.

use crate::numbers::Integers;
use crate::numbers::lemma_euclid_div_bounds;
use crate::numbers::lemma_euclid_mod_bounds;
use crate::numbers::trunc_div;
use vstd::arithmetic::div_mod::lemma_div_is_ordered;
use vstd::arithmetic::div_mod::lemma_fundamental_div_mod;
use vstd::arithmetic::div_mod::lemma_mod_multiples_basic;
use vstd::arithmetic::mul::lemma_mul_inequality;
use vstd::prelude::*;

verus! {

/// The mathematical integers that a sequence of `Integers` values stands
/// for, element by element.
pub open spec fn views<T: Integers>(s: Seq<T>) -> Seq<int> {
    s.map_values(|t: T| t.v())
}

/// Whether `m` is divisible by at least one element of `fs`.
pub open spec fn divisible_by_some(m: int, fs: Seq<int>) -> bool {
    exists|k: int| 0 <= k < fs.len() && m % #[trigger] fs[k] == 0
}

/// Whether `m` belongs to the multiples of `fs` below `max`: positive,
/// strictly below the bound, and divisible by some factor.
pub open spec fn is_multiple_below(m: int, fs: Seq<int>, max: int) -> bool {
    1 <= m < max && divisible_by_some(m, fs)
}

/// Whether `s` is strictly ascending, which also rules out duplicates.
pub open spec fn sorted_strict(s: Seq<int>) -> bool {
    forall|i: int, j: int| 0 <= i < j < s.len() ==> s[i] < s[j]
}

/// The ascending, duplicate-free sequence of every multiple of `fs` that
/// lies in `[1, max)`, built value by value from below.
pub open spec fn multiples_upto(fs: Seq<int>, max: int) -> Seq<int>
    decreases max,
{
    if max <= 1 {
        Seq::empty()
    } else if is_multiple_below(max - 1, fs, max) {
        multiples_upto(fs, max - 1).push(max - 1)
    } else {
        multiples_upto(fs, max - 1)
    }
}

/// The sum of a sequence of integers, folded from the additive identity.
pub open spec fn sum_seq(s: Seq<int>) -> int
    decreases s.len(),
{
    if s.len() == 0 {
        0
    } else {
        sum_seq(s.drop_last()) + s.last()
    }
}

/// `multiples_upto` holds exactly the multiples of its factors below its
/// bound.
pub proof fn lemma_multiples_upto_membership(fs: Seq<int>, max: int, m: int)
    ensures
        multiples_upto(fs, max).contains(m) <==> is_multiple_below(m, fs, max),
    decreases max,
{
    let s = multiples_upto(fs, max);
    if max <= 1 {
        assert(!s.contains(m));
        assert(!is_multiple_below(m, fs, max));
    } else {
        let prev = multiples_upto(fs, max - 1);
        lemma_multiples_upto_membership(fs, max - 1, m);
        if is_multiple_below(max - 1, fs, max) {
            assert(s == prev.push(max - 1));
            if m == max - 1 {
                assert(s[s.len() - 1] == m);
                assert(s.contains(m));
            } else {
                assert(s.contains(m) <==> prev.contains(m)) by {
                    if s.contains(m) {
                        let i = choose|i: int| 0 <= i < s.len() && s[i] == m;
                        assert(i < s.len() - 1);
                        assert(prev[i] == m);
                    }
                    if prev.contains(m) {
                        let i = choose|i: int| 0 <= i < prev.len() && prev[i] == m;
                        assert(s[i] == m);
                    }
                }
                assert(is_multiple_below(m, fs, max) <==> is_multiple_below(m, fs, max - 1));
            }
        } else {
            assert(s == prev);
            assert(is_multiple_below(m, fs, max) <==> is_multiple_below(m, fs, max - 1)) by {
                if is_multiple_below(m, fs, max) && m == max - 1 {
                    assert(is_multiple_below(max - 1, fs, max));
                }
            }
        }
    }
}

/// `multiples_upto` is strictly ascending, and every element lies in
/// `[1, max)`.
pub proof fn lemma_multiples_upto_sorted(fs: Seq<int>, max: int)
    ensures
        sorted_strict(multiples_upto(fs, max)),
        forall|j: int| 0 <= j < multiples_upto(fs, max).len() ==> 1 <= #[trigger] multiples_upto(
            fs,
            max,
        )[j] < max,
    decreases max,
{
    let s = multiples_upto(fs, max);
    if max <= 1 {
    } else {
        let prev = multiples_upto(fs, max - 1);
        lemma_multiples_upto_sorted(fs, max - 1);
        if is_multiple_below(max - 1, fs, max) {
            assert(s == prev.push(max - 1));
            assert forall|i: int, j: int| 0 <= i < j < s.len() implies s[i] < s[j] by {
                if j < s.len() - 1 {
                    assert(prev[i] < prev[j]);
                } else {
                    assert(s[i] == prev[i] && prev[i] < max - 1);
                }
            }
        }
    }
}

/// A strictly ascending sequence holding exactly the multiples of `fs`
/// below `max` is `multiples_upto(fs, max)` itself: the model sequence is
/// the unique such sequence.
pub proof fn lemma_sorted_multiples_unique(s: Seq<int>, fs: Seq<int>, max: int)
    requires
        sorted_strict(s),
        forall|m: int| #[trigger] s.contains(m) <==> is_multiple_below(m, fs, max),
    ensures
        s == multiples_upto(fs, max),
    decreases max,
{
    let n = s.len() as int;
    if max <= 1 {
        if n > 0 {
            assert(s.contains(s[0]));
            assert(false);
        }
        assert(s =~= Seq::<int>::empty());
    } else if is_multiple_below(max - 1, fs, max) {
        assert(s.contains(max - 1));
        let i = choose|i: int| 0 <= i < n && s[i] == max - 1;
        assert forall|j: int| 0 <= j < n implies s[j] <= max - 1 by {
            assert(s.contains(s[j]));
        }
        assert(i == n - 1) by {
            if i < n - 1 {
                assert(s[i] < s[n - 1]);
                assert(s.contains(s[n - 1]));
            }
        }
        let s2 = s.drop_last();
        assert(sorted_strict(s2));
        assert forall|m: int| #[trigger] s2.contains(m) <==> is_multiple_below(
            m,
            fs,
            max - 1,
        ) by {
            if s2.contains(m) {
                let j = choose|j: int| 0 <= j < s2.len() && s2[j] == m;
                assert(s[j] == m);
                assert(s.contains(m));
                assert(m == s[j] < s[n - 1]);
            }
            if is_multiple_below(m, fs, max - 1) {
                assert(is_multiple_below(m, fs, max));
                assert(s.contains(m));
                let j = choose|j: int| 0 <= j < n && s[j] == m;
                assert(j < n - 1) by {
                    if j == n - 1 {
                        assert(s[j] == max - 1);
                    }
                }
                assert(s2[j] == m);
                assert(s2.contains(m));
            }
        }
        lemma_sorted_multiples_unique(s2, fs, max - 1);
        assert(s =~= multiples_upto(fs, max - 1).push(max - 1));
    } else {
        assert forall|m: int| #[trigger] s.contains(m) <==> is_multiple_below(
            m,
            fs,
            max - 1,
        ) by {
            if s.contains(m) {
                assert(is_multiple_below(m, fs, max));
                assert(m != max - 1);
            }
            if is_multiple_below(m, fs, max - 1) {
                assert(is_multiple_below(m, fs, max));
            }
        }
        lemma_sorted_multiples_unique(s, fs, max - 1);
    }
}

/// Taking views commutes with insertion.
proof fn lemma_views_insert<T: Integers>(s: Seq<T>, i: int, x: T)
    requires
        0 <= i <= s.len(),
    ensures
        views(s.insert(i, x)) == views(s).insert(i, x.v()),
{
    s.insert_ensures(i, x);
    views(s).insert_ensures(i, x.v());
    assert forall|j: int| 0 <= j < views(s.insert(i, x)).len() implies views(s.insert(i, x))[j]
        == views(s).insert(i, x.v())[j] by {
        if j < i {
            assert(s.insert(i, x)[j] == s[j]);
        } else if j == i {
            assert(s.insert(i, x)[j] == x);
        } else {
            assert(s.insert(i, x)[(j - 1) + 1] == s[j - 1]);
            assert(views(s).insert(i, x.v())[(j - 1) + 1] == views(s)[j - 1]);
        }
    }
    assert(views(s.insert(i, x)) =~= views(s).insert(i, x.v()));
}

/// Inserting a value into a sequence adds exactly that value to its
/// membership.
proof fn lemma_contains_insert(s: Seq<int>, i: int, x: int, m: int)
    requires
        0 <= i <= s.len(),
    ensures
        s.insert(i, x).contains(m) <==> s.contains(m) || m == x,
{
    s.insert_ensures(i, x);
    let t = s.insert(i, x);
    if t.contains(m) {
        let j = choose|j: int| 0 <= j < t.len() && t[j] == m;
        if j < i {
            assert(s[j] == m);
            assert(s.contains(m));
        } else if j > i {
            assert(t[(j - 1) + 1] == s[j - 1]);
            assert(s.contains(m));
        }
    }
    if s.contains(m) {
        let j = choose|j: int| 0 <= j < s.len() && s[j] == m;
        if j < i {
            assert(t[j] == m);
        } else {
            assert(t[j + 1] == m);
        }
        assert(t.contains(m));
    }
    if m == x {
        assert(t[i] == m);
        assert(t.contains(m));
    }
}

/// Places `x` at its position in a strictly ascending working collection,
/// unless a value with the same view already stands there: the executable
/// form of resolving duplicates while keeping the collection sorted.
fn insert_sorted<T: Integers>(out: &mut Vec<T>, x: T)
    requires
        sorted_strict(views(old(out)@)),
    ensures
        sorted_strict(views(final(out)@)),
        forall|m: int| #[trigger] views(final(out)@).contains(m) <==> views(
            old(out)@,
        ).contains(m) || m == x.v(),
{
    let ghost vs0 = views(old(out)@);
    let mut idx: usize = 0;
    while idx < out.len() && out[idx].lt(x)
        invariant
            idx <= out@.len(),
            out@ == old(out)@,
            forall|j: int| 0 <= j < idx ==> #[trigger] views(out@)[j] < x.v(),
        decreases out@.len() - idx,
    {
        idx = idx + 1;
    }
    if idx < out.len() {
        let y = out[idx];
        if !x.lt(y) {
            proof {
                assert(vs0[idx as int] == y.v());
                assert(y.v() == x.v());
                assert(vs0.contains(x.v()));
                assert(views(out@) == vs0);
            }
            return ;
        }
    }
    proof {
        assert(idx < vs0.len() ==> x.v() < vs0[idx as int]);
    }
    out.insert(idx, x);
    proof {
        lemma_views_insert(old(out)@, idx as int, x);
        assert(views(out@) == vs0.insert(idx as int, x.v()));
        let t = views(out@);
        assert forall|i: int, j: int| 0 <= i < j < t.len() implies t[i] < t[j] by {
            vs0.insert_ensures(idx as int, x.v());
            assert forall|p: int| 0 <= p < t.len() implies (p < idx ==> t[p] == vs0[p]) && (p
                == idx ==> t[p] == x.v()) && (p > idx ==> t[p] == vs0[p - 1]) by {
                if p > idx {
                    assert(t[(p - 1) + 1] == vs0[p - 1]);
                }
            }
            if j < idx {
            } else if i >= idx + 1 {
                assert(vs0[i - 1] < vs0[j - 1]);
            }
        }
        assert forall|m: int| #[trigger] t.contains(m) <==> vs0.contains(m) || m == x.v() by {
            lemma_contains_insert(vs0, idx as int, x.v(), m);
        }
    }
}

/// One enumeration step for a single factor: taking in the product of the
/// factor and the step counter extends the enumerated range by exactly
/// that product.
proof fn lemma_factor_step(fv: int, max: int, i: int, m: int)
    requires
        fv >= 1,
        i >= 1,
    ensures
        ((m % fv == 0 && fv <= m <= fv * (i - 1) && m < max) || (m == fv * i && fv * i < max))
            <==> (m % fv == 0 && fv <= m <= fv * i && m < max),
{
    if m % fv == 0 && fv <= m <= fv * i && m < max {
        lemma_fundamental_div_mod(m, fv);
        let q = m / fv;
        assert(m == fv * q);
        assert(1 <= q && q <= i) by (nonlinear_arith)
            requires
                m == fv * q,
                fv >= 1,
                fv <= m,
                m <= fv * i,
        ;
        if q < i {
            assert(m <= fv * (i - 1)) by (nonlinear_arith)
                requires
                    m == fv * q,
                    q <= i - 1,
                    fv >= 1,
            ;
        }
    }
    if m % fv == 0 && fv <= m <= fv * (i - 1) && m < max {
        lemma_mul_inequality(i - 1, i, fv);
    }
    if m == fv * i && fv * i < max {
        lemma_mod_multiples_basic(i, fv);
        assert(fv <= fv * i) by (nonlinear_arith)
            requires
                fv >= 1,
                i >= 1,
        ;
    }
}

/// After the last step for one factor, the enumerated range, which runs up
/// to the factor times the truncating quotient of the bound by the factor,
/// holds exactly the positive multiples of that factor below the bound.
proof fn lemma_factor_complete(fv: int, max: int, limit: int, m: int)
    requires
        fv >= 1,
        limit == trunc_div(max, fv),
    ensures
        (m % fv == 0 && fv <= m <= fv * limit && m < max) <==> (1 <= m < max && m % fv == 0),
{
    if 1 <= m < max && m % fv == 0 {
        assert(max >= 0);
        assert(limit == max / fv);
        lemma_fundamental_div_mod(m, fv);
        let q = m / fv;
        assert(m == fv * q);
        assert(1 <= q) by (nonlinear_arith)
            requires
                m == fv * q,
                fv >= 1,
                m >= 1,
        ;
        lemma_div_is_ordered(m, max, fv);
        assert(q <= limit);
        assert(fv <= m && m <= fv * limit) by (nonlinear_arith)
            requires
                m == fv * q,
                1 <= q <= limit,
                fv >= 1,
        ;
    }
}

/// Adding one more factor to the processed prefix admits exactly the
/// multiples of that factor.
proof fn lemma_divisible_take_step(m: int, fs: Seq<int>, k: int)
    requires
        0 <= k < fs.len(),
    ensures
        divisible_by_some(m, fs.take(k + 1)) <==> (divisible_by_some(m, fs.take(k)) || m
            % fs[k] == 0),
{
    let a = fs.take(k);
    let b = fs.take(k + 1);
    if divisible_by_some(m, b) {
        let j = choose|j: int| 0 <= j < b.len() && m % b[j] == 0;
        assert(b[j] == fs[j]);
        if j < k {
            assert(a[j] == fs[j]);
            assert(divisible_by_some(m, a));
        }
    }
    if divisible_by_some(m, a) {
        let j = choose|j: int| 0 <= j < a.len() && m % a[j] == 0;
        assert(a[j] == fs[j]);
        assert(b[j] == fs[j]);
        assert(divisible_by_some(m, b));
    }
    if m % fs[k] == 0 {
        assert(b[k] == fs[k]);
        assert(divisible_by_some(m, b));
    }
}

/// All multiples of the input factors that lie strictly below `max`, as an
/// ascending sequence with duplicates resolved away.
///
/// Each factor must be strictly positive. The result is exactly the model
/// sequence `multiples_upto` of the factors' views below the bound's view.
pub fn multiples<T: Integers>(factors: Vec<T>, max: T) -> (r: Vec<T>)
    requires
        forall|k: int| 0 <= k < factors@.len() ==> #[trigger] factors@[k].v() >= 1,
    ensures
        views(r@) == multiples_upto(views(factors@), max.v()),
{
    let ghost fsv = views(factors@);
    let mut out: Vec<T> = Vec::new();
    let mut fidx: usize = 0;
    proof {
        max.lemma_in_range();
        assert(views(out@) =~= Seq::<int>::empty());
        assert(fsv.take(0) =~= Seq::<int>::empty());
    }
    while fidx < factors.len()
        invariant
            fidx <= factors@.len(),
            forall|k: int| 0 <= k < factors@.len() ==> #[trigger] factors@[k].v() >= 1,
            fsv == views(factors@),
            max.v() <= T::max_val(),
            T::min_val() <= 0,
            1 <= T::max_val(),
            sorted_strict(views(out@)),
            forall|m: int| #[trigger] views(out@).contains(m) <==> (1 <= m < max.v()
                && divisible_by_some(m, fsv.take(fidx as int))),
        decreases factors@.len() - fidx,
    {
        let factor = factors[fidx];
        let ghost fv = factor.v();
        let limit = max.quot(factor);
        let one_t = T::one();
        if one_t.le(limit) {
            proof {
                if max.v() < 0 {
                    lemma_euclid_div_bounds(-max.v(), fv);
                    assert(false);
                }
                limit.lemma_in_range();
                lemma_fundamental_div_mod(max.v(), fv);
                lemma_euclid_mod_bounds(max.v(), fv);
                assert(fv * limit.v() <= max.v());
                assert(fv * 1 <= fv * limit.v()) by {
                    lemma_mul_inequality(1, limit.v(), fv);
                }
            }
            let mut i = one_t;
            loop
                invariant_except_break
                    1 <= i.v() <= limit.v(),
                    forall|m: int| #[trigger] views(out@).contains(m) <==> ((1 <= m < max.v()
                        && divisible_by_some(m, fsv.take(fidx as int))) || (m % fv == 0 && fv
                        <= m <= fv * (i.v() - 1) && m < max.v())),
                invariant
                    sorted_strict(views(out@)),
                    fv == factor.v(),
                    fv >= 1,
                    one_t.v() == 1,
                    limit.v() == trunc_div(max.v(), fv),
                    limit.v() <= T::max_val(),
                    fv * limit.v() <= max.v(),
                    0 <= max.v() <= T::max_val(),
                    T::min_val() <= 0,
                    1 <= T::max_val(),
                ensures
                    forall|m: int| #[trigger] views(out@).contains(m) <==> ((1 <= m < max.v()
                        && divisible_by_some(m, fsv.take(fidx as int))) || (m % fv == 0 && fv
                        <= m <= fv * limit.v() && m < max.v())),
                decreases limit.v() - i.v(),
            {
                proof {
                    lemma_mul_inequality(i.v(), limit.v(), fv);
                    assert(fv * i.v() <= fv * limit.v());
                    assert(1 <= fv * i.v()) by (nonlinear_arith)
                        requires
                            fv >= 1,
                            i.v() >= 1,
                    ;
                }
                let current = factor.times(i);
                let ghost pre = views(out@);
                if current.lt(max) {
                    insert_sorted(&mut out, current);
                }
                proof {
                    assert forall|m: int| #[trigger] views(out@).contains(m) <==> ((1 <= m
                        < max.v() && divisible_by_some(m, fsv.take(fidx as int))) || (m % fv
                        == 0 && fv <= m <= fv * i.v() && m < max.v())) by {
                        lemma_factor_step(fv, max.v(), i.v(), m);
                        if !(fv * i.v() < max.v()) {
                            assert(views(out@) == pre);
                        }
                    }
                }
                if i.lt(limit) {
                    i = i.plus(one_t);
                } else {
                    break ;
                }
            }
            proof {
                assert forall|m: int| #[trigger] views(out@).contains(m) <==> (1 <= m < max.v()
                    && divisible_by_some(m, fsv.take(fidx as int + 1))) by {
                    lemma_factor_complete(fv, max.v(), limit.v(), m);
                    lemma_divisible_take_step(m, fsv, fidx as int);
                }
            }
        } else {
            proof {
                assert forall|m: int| #[trigger] views(out@).contains(m) <==> (1 <= m < max.v()
                    && divisible_by_some(m, fsv.take(fidx as int + 1))) by {
                    lemma_factor_complete(fv, max.v(), limit.v(), m);
                    lemma_divisible_take_step(m, fsv, fidx as int);
                    if m % fv == 0 && fv <= m <= fv * limit.v() && m < max.v() {
                        assert(fv * limit.v() <= 0) by {
                            lemma_mul_inequality(limit.v(), 0, fv);
                        }
                        assert(false);
                    }
                }
            }
        }
        fidx = fidx + 1;
    }
    proof {
        assert(fsv.take(fsv.len() as int) =~= fsv);
        assert(forall|m: int| #[trigger] views(out@).contains(m) <==> is_multiple_below(
            m,
            fsv,
            max.v(),
        ));
        lemma_sorted_multiples_unique(views(out@), fsv, max.v());
    }
    out
}

/// A sequence with no negative element has a sum that is not negative.
proof fn lemma_sum_nonneg(s: Seq<int>)
    requires
        forall|j: int| 0 <= j < s.len() ==> s[j] >= 0,
    ensures
        sum_seq(s) >= 0,
    decreases s.len(),
{
    if s.len() > 0 {
        lemma_sum_nonneg(s.drop_last());
    }
}

/// Extending a prefix by one element adds that element to the prefix sum.
proof fn lemma_sum_take_step(s: Seq<int>, i: int)
    requires
        0 <= i < s.len(),
    ensures
        sum_seq(s.take(i + 1)) == sum_seq(s.take(i)) + s[i],
{
    let t = s.take(i + 1);
    assert(t.drop_last() =~= s.take(i));
    assert(t.last() == s[i]);
}

/// With no negative elements, every prefix sum lies between zero and the
/// total.
proof fn lemma_sum_take_bounds(s: Seq<int>, i: int)
    requires
        0 <= i <= s.len(),
        forall|j: int| 0 <= j < s.len() ==> s[j] >= 0,
    ensures
        0 <= sum_seq(s.take(i)) <= sum_seq(s),
    decreases s.len() - i,
{
    assert forall|j: int| 0 <= j < s.take(i).len() implies s.take(i)[j] >= 0 by {
        assert(s.take(i)[j] == s[j]);
    }
    lemma_sum_nonneg(s.take(i));
    if i == s.len() {
        assert(s.take(i) =~= s);
    } else {
        lemma_sum_take_step(s, i);
        lemma_sum_take_bounds(s, i + 1);
    }
}

/// The sum of all multiples of the input factors that lie strictly below
/// `max`, folded from the additive identity in ascending order.
///
/// Each factor must be strictly positive, and the total must fit in the
/// type; the result is exactly the fold of the model sequence
/// `multiples_upto`.
pub fn sum_of_multiples<T: Integers>(factors: Vec<T>, max: T) -> (r: T)
    requires
        forall|k: int| 0 <= k < factors@.len() ==> #[trigger] factors@[k].v() >= 1,
        sum_seq(multiples_upto(views(factors@), max.v())) <= T::max_val(),
    ensures
        r.v() == sum_seq(multiples_upto(views(factors@), max.v())),
{
    let ghost fsv = views(factors@);
    let ghost model = multiples_upto(fsv, max.v());
    let ms = multiples(factors, max);
    let mut out = T::zero();
    let mut idx: usize = 0;
    proof {
        out.lemma_in_range();
        assert(views(ms@).take(0) =~= Seq::<int>::empty());
        lemma_multiples_upto_sorted(fsv, max.v());
    }
    while idx < ms.len()
        invariant
            idx <= ms@.len(),
            views(ms@) == model,
            out.v() == sum_seq(views(ms@).take(idx as int)),
            sum_seq(model) <= T::max_val(),
            T::min_val() <= 0,
            forall|j: int| 0 <= j < views(ms@).len() ==> #[trigger] views(ms@)[j] >= 0,
        decreases ms@.len() - idx,
    {
        proof {
            lemma_sum_take_step(views(ms@), idx as int);
            lemma_sum_take_bounds(views(ms@), idx as int + 1);
            assert(views(ms@)[idx as int] == ms@[idx as int].v());
        }
        out = out.plus(ms[idx]);
        idx = idx + 1;
    }
    proof {
        assert(views(ms@).take(ms@.len() as int) =~= views(ms@));
    }
    out
}

/// Law: every multiples sequence is strictly ascending, hence free of
/// duplicates, and each of its elements is at least one, strictly below
/// the bound, and divisible by at least one of the factors.
pub proof fn lemma_multiples_ascending_and_divisible(fs: Seq<int>, max: int)
    ensures
        sorted_strict(multiples_upto(fs, max)),
        forall|j: int| 0 <= j < multiples_upto(fs, max).len() ==> is_multiple_below(
            #[trigger] multiples_upto(fs, max)[j],
            fs,
            max,
        ),
{
    let s = multiples_upto(fs, max);
    lemma_multiples_upto_sorted(fs, max);
    assert forall|j: int| 0 <= j < s.len() implies is_multiple_below(s[j], fs, max) by {
        assert(s.contains(s[j]));
        lemma_multiples_upto_membership(fs, max, s[j]);
    }
}

/// The total of the multiples below `max` never exceeds the square of
/// `max - 1`: there are fewer than `max` elements and each is below `max`.
/// This discharges the machine-limit precondition of `sum_of_multiples`
/// for any bound whose square fits in the type.
pub proof fn lemma_sum_of_multiples_bound(fs: Seq<int>, max: int)
    ensures
        max >= 1 ==> sum_seq(multiples_upto(fs, max)) <= (max - 1) * (max - 1),
        max <= 1 ==> sum_seq(multiples_upto(fs, max)) == 0,
        sum_seq(multiples_upto(fs, max)) >= 0,
    decreases max,
{
    if max > 1 {
        lemma_sum_of_multiples_bound(fs, max - 1);
        let prev = multiples_upto(fs, max - 1);
        if is_multiple_below(max - 1, fs, max) {
            let s = prev.push(max - 1);
            assert(s.drop_last() =~= prev);
            assert(sum_seq(s) == sum_seq(prev) + (max - 1));
            assert((max - 2) * (max - 2) + (max - 1) <= (max - 1) * (max - 1)) by (nonlinear_arith)
                requires
                    max >= 2,
            ;
        } else {
            assert((max - 2) * (max - 2) <= (max - 1) * (max - 1)) by (nonlinear_arith)
                requires
                    max >= 2,
            ;
        }
    }
}

/// Law: the aggregator and the generator agree. The total the aggregator
/// returns is the fold of exactly the sequence the generator returns,
/// since both contracts speak of the one model sequence `multiples_upto`.
pub proof fn lemma_sum_is_sum_of_generated(vs: Seq<int>, total: int, fs: Seq<int>, max: int)
    requires
        vs == multiples_upto(fs, max),
        total == sum_seq(multiples_upto(fs, max)),
    ensures
        total == sum_seq(vs),
{
}

/// Law: with no factors at all, no value qualifies as a multiple: the
/// multiples sequence is empty, and its sum is the additive identity.
pub proof fn lemma_multiples_empty_factors(max: int)
    ensures
        multiples_upto(Seq::empty(), max) == Seq::<int>::empty(),
        sum_seq(multiples_upto(Seq::empty(), max)) == 0,
    decreases max,
{
    if max > 1 {
        assert(!divisible_by_some(max - 1, Seq::empty()));
        lemma_multiples_empty_factors(max - 1);
    }
}

} // verus!

