use vstd::prelude::*;

verus! {

broadcast use vstd::seq_lib::group_to_multiset_ensures;

/// The sum of the terms.
pub open spec fn total(s: Seq<i128>) -> int
    decreases s.len(),
{
    if s.len() == 0 {
        0
    } else {
        total(s.drop_last()) + s.last()
    }
}

/// The number of negative terms.
pub open spec fn count_negative(s: Seq<i128>) -> nat
    decreases s.len(),
{
    if s.len() == 0 {
        0
    } else {
        count_negative(s.drop_last()) + if s.last() < 0 {
            1nat
        } else {
            0nat
        }
    }
}

/// The absolute value of a term.
pub open spec fn abs(x: i128) -> nat {
    if x < 0 {
        (-x) as nat
    } else {
        x as nat
    }
}

/// Every prefix of the terms, the empty one and the whole included, has a
/// sum of zero or more.
pub open spec fn prefix_sums_nonnegative(s: Seq<i128>) -> bool {
    forall|k: int| 0 <= k <= s.len() ==> total(#[trigger] s.take(k)) >= 0
}

pub proof fn lemma_concat(a: Seq<i128>, b: Seq<i128>)
    ensures
        total(a + b) == total(a) + total(b),
        count_negative(a + b) == count_negative(a) + count_negative(b),
    decreases b.len(),
{
    if b.len() == 0 {
        assert(a + b =~= a);
    } else {
        assert((a + b).drop_last() =~= a + b.drop_last());
        lemma_concat(a, b.drop_last());
    }
}

pub proof fn lemma_remove(s: Seq<i128>, k: int)
    requires
        0 <= k < s.len(),
    ensures
        total(s) == total(s.remove(k)) + s[k],
        count_negative(s) == count_negative(s.remove(k)) + if s[k] < 0 {
            1nat
        } else {
            0nat
        },
    decreases s.len(),
{
    if k == s.len() - 1 {
        assert(s.remove(k) =~= s.drop_last());
    } else {
        assert(s.remove(k).drop_last() =~= s.drop_last().remove(k));
        assert(s.remove(k).last() == s.last());
        lemma_remove(s.drop_last(), k);
    }
}

/// Reordering the terms keeps their sum and the number of negative ones.
pub proof fn lemma_permutation(s1: Seq<i128>, s2: Seq<i128>)
    requires
        s1.to_multiset() == s2.to_multiset(),
    ensures
        total(s1) == total(s2),
        count_negative(s1) == count_negative(s2),
    decreases s1.len(),
{
    broadcast use vstd::multiset::group_multiset_axioms;

    if s1.len() == 0 {
        assert(s2.len() == s2.to_multiset().len());
        assert(s1.len() == s1.to_multiset().len());
        assert(s2 =~= s1);
    } else {
        let x = s1.last();
        let rest = s1.drop_last();
        assert(rest.push(x) =~= s1);
        assert(s2.to_multiset().count(x) > 0);
        assert(s2.contains(x));
        let k = choose|k: int| 0 <= k < s2.len() && s2[k] == x;
        assert(s2.remove(k).to_multiset() =~= rest.to_multiset());
        lemma_permutation(rest, s2.remove(k));
        lemma_remove(s2, k);
    }
}

/// The absolute values of the terms, in order.
pub open spec fn magnitudes(s: Seq<i128>) -> Seq<nat> {
    Seq::new(s.len(), |k: int| abs(s[k]))
}

/// Reordering the terms keeps the multiset of their absolute values.
pub proof fn lemma_magnitudes_permutation(s1: Seq<i128>, s2: Seq<i128>)
    requires
        s1.to_multiset() == s2.to_multiset(),
    ensures
        magnitudes(s1).to_multiset() == magnitudes(s2).to_multiset(),
    decreases s1.len(),
{
    broadcast use vstd::multiset::group_multiset_axioms;

    if s1.len() == 0 {
        assert(s2.len() == s2.to_multiset().len());
        assert(s1.len() == s1.to_multiset().len());
        assert(magnitudes(s1) =~= magnitudes(s2));
    } else {
        let x = s1.last();
        let rest = s1.drop_last();
        assert(rest.push(x) =~= s1);
        assert(s2.to_multiset().count(x) > 0);
        assert(s2.contains(x));
        let k = choose|k: int| 0 <= k < s2.len() && s2[k] == x;
        assert(s2.remove(k).to_multiset() =~= rest.to_multiset());
        lemma_magnitudes_permutation(rest, s2.remove(k));
        assert(magnitudes(s1) =~= magnitudes(rest).push(abs(x)));
        let m2 = magnitudes(s2);
        assert(m2.remove(k) =~= magnitudes(s2.remove(k)));
        assert(m2.to_multiset().count(abs(x)) > 0) by {
            assert(m2[k] == abs(x));
            assert(m2.contains(abs(x)));
        }
        assert(m2.to_multiset() =~= m2.remove(k).to_multiset().insert(abs(x)));
    }
}

/// Swapping two terms keeps the multiset of terms.
pub proof fn lemma_swap<A>(s: Seq<A>, i: int, j: int)
    requires
        0 <= i < s.len(),
        0 <= j < s.len(),
    ensures
        s.update(i, s[j]).update(j, s[i]).to_multiset() == s.to_multiset(),
{
    broadcast use vstd::multiset::group_multiset_axioms;
    broadcast use vstd::seq_lib::to_multiset_update;

    let s1 = s.update(i, s[j]);
    assert(s1.to_multiset() == s.to_multiset().remove(s[i]).insert(s[j]));
    assert(s1[j] == s[j] || i == j);
    if i == j {
        assert(s.update(i, s[j]).update(j, s[i]) =~= s);
    } else {
        assert(s1.update(j, s[i]).to_multiset() == s1.to_multiset().remove(s[j]).insert(s[i]));
        assert(s1.update(j, s[i]).to_multiset() =~= s.to_multiset());
    }
}

/// Terms whose sum is positive include a positive one.
pub proof fn lemma_positive_term(s: Seq<i128>)
    requires
        total(s) > 0,
    ensures
        exists|k: int| 0 <= k < s.len() && s[k] > 0,
    decreases s.len(),
{
    if s.last() <= 0 {
        lemma_positive_term(s.drop_last());
        let k = choose|k: int| 0 <= k < s.len() - 1 && s.drop_last()[k] > 0;
        assert(s[k] > 0);
    } else {
        assert(s[s.len() - 1] > 0);
    }
}

/// Terms of which not all are negative include one that is not.
pub proof fn lemma_nonnegative_term(s: Seq<i128>)
    requires
        count_negative(s) < s.len(),
    ensures
        exists|k: int| 0 <= k < s.len() && s[k] >= 0,
    decreases s.len(),
{
    if s.last() < 0 {
        lemma_nonnegative_term(s.drop_last());
        let k = choose|k: int| 0 <= k < s.len() - 1 && s.drop_last()[k] >= 0;
        assert(s[k] >= 0);
    } else {
        assert(s[s.len() - 1] >= 0);
    }
}

/// Terms of which none is negative have a sum of zero or more, and no
/// negative one.
pub proof fn lemma_all_nonnegative(s: Seq<i128>)
    requires
        forall|k: int| 0 <= k < s.len() ==> s[k] >= 0,
    ensures
        total(s) >= 0,
        count_negative(s) == 0,
    decreases s.len(),
{
    if s.len() > 0 {
        lemma_all_nonnegative(s.drop_last());
    }
}

/// The sum of terms each at most `b` in absolute value is at most
/// `len * b` in absolute value.
pub proof fn lemma_total_bound(s: Seq<i128>, b: int)
    requires
        forall|k: int| 0 <= k < s.len() ==> -b <= #[trigger] s[k] <= b,
    ensures
        -(s.len() * b) <= total(s) <= s.len() * b,
    decreases s.len(),
{
    if s.len() > 0 {
        lemma_total_bound(s.drop_last(), b);
        assert((s.len() - 1) * b + b == s.len() * b) by (nonlinear_arith);
    }
}

/// Negating some of the terms of `t`, which are all non-negative, lowers
/// the sum to no less than `-total(t)`.
pub proof fn lemma_signed_total(s: Seq<i128>, t: Seq<i128>)
    requires
        s.len() == t.len(),
        forall|k: int| 0 <= k < t.len() ==> t[k] >= 0 && (s[k] == t[k] || s[k] == -t[k]),
    ensures
        total(s) >= -total(t),
    decreases s.len(),
{
    if s.len() > 0 {
        lemma_signed_total(s.drop_last(), t.drop_last());
    }
}

/// The sum of `v[a..b]`, whose terms are each at most `m` in absolute value.
pub(crate) fn sum_terms(v: &Vec<i128>, a: usize, b: usize, Ghost(m): Ghost<int>) -> (sum: i128)
    requires
        a <= b <= v.len(),
        0 <= m,
        forall|k: int| a <= k < b ==> -m <= #[trigger] v@[k] <= m,
        (b - a) * m <= i128::MAX,
    ensures
        sum == total(v@.subrange(a as int, b as int)),
{
    let mut sum: i128 = 0;
    let mut i: usize = a;
    while i < b
        invariant
            a <= i <= b <= v.len(),
            0 <= m,
            forall|k: int| a <= k < b ==> -m <= #[trigger] v@[k] <= m,
            (b - a) * m <= i128::MAX,
            sum == total(v@.subrange(a as int, i as int)),
        decreases b - i,
    {
        proof {
            let part = v@.subrange(a as int, i as int);
            assert forall|k: int| 0 <= k < part.len() implies -m <= #[trigger] part[k] <= m by {
                assert(part[k] == v@[a + k]);
            }
            lemma_total_bound(part, m);
            assert((i - a) * m + m <= (b - a) * m) by (nonlinear_arith)
                requires
                    i < b,
                    0 <= m,
            ;
            assert(v@.subrange(a as int, i + 1).drop_last() =~= part);
        }
        sum = sum + v[i];
        i = i + 1;
    }
    sum
}

} // verus!
