use crate::digits::digit_length;
use vstd::arithmetic::div_mod::{lemma_fundamental_div_mod, lemma_fundamental_div_mod_converse};
use vstd::prelude::*;

verus! {

broadcast use vstd::seq_lib::group_to_multiset_ensures;

/// How many of `0..n` leave remainder `r` when divided by `k`.
pub open spec fn residue_count(n: nat, k: nat, r: nat) -> nat
    decreases n,
{
    if n == 0 {
        0
    } else {
        residue_count((n - 1) as nat, k, r) + if (n - 1) % (k as int) == r {
            1nat
        } else {
            0nat
        }
    }
}

pub proof fn lemma_residue_count(n: nat, k: nat, r: nat)
    requires
        r < k,
    ensures
        residue_count(n, k, r) == (n + k - 1 - r) / (k as int),
    decreases n,
{
    if n == 0 {
        lemma_fundamental_div_mod_converse(k - 1 - r, k as int, 0, k - 1 - r);
    } else {
        lemma_residue_count((n - 1) as nat, k, r);
        let x = n - 1;
        lemma_fundamental_div_mod(x, k as int);
        let q = x / (k as int);
        let m = x % (k as int);
        assert(q * k == k * q && (q + 1) * k == q * k + k) by (nonlinear_arith);
        assert(x == q * k + m);
        if m > r {
            lemma_fundamental_div_mod_converse(x + k - 1 - r, k as int, q + 1, m - 1 - r);
            lemma_fundamental_div_mod_converse(n + k - 1 - r, k as int, q + 1, m - r);
        } else if m == r {
            lemma_fundamental_div_mod_converse(x + k - 1 - r, k as int, q, m + k - 1 - r);
            lemma_fundamental_div_mod_converse(n + k - 1 - r, k as int, q + 1, 0);
        } else {
            lemma_fundamental_div_mod_converse(x + k - 1 - r, k as int, q, m + k - 1 - r);
            lemma_fundamental_div_mod_converse(n + k - 1 - r, k as int, q, m + k - r);
        }
    }
}

/// Dealing `n` turns round-robin to `k` places gives each place `n / k` or
/// `n / k` rounded up turns; the first place gets the rounded-up count, the
/// second that of `n - 1` turns.
pub proof fn lemma_residue_count_balanced(n: nat, k: nat, r: nat)
    requires
        r < k,
    ensures
        residue_count(n, k, r) == (n as int) / (k as int) || residue_count(n, k, r) == (n + k - 1) / (
        k as int),
        r == 0 ==> residue_count(n, k, r) == (n + k - 1) / (k as int),
        r == 1 ==> residue_count(n, k, r) == (n + k - 2) / (k as int),
{
    lemma_residue_count(n, k, r);
    lemma_fundamental_div_mod(n as int, k as int);
    let q = (n as int) / (k as int);
    let m = (n as int) % (k as int);
    assert(q * k == k * q && (q + 1) * k == q * k + k) by (nonlinear_arith);
    lemma_fundamental_div_mod_converse(n as int, k as int, q, m);
    if m > r {
        lemma_fundamental_div_mod_converse(n + k - 1 - r, k as int, q + 1, m - 1 - r);
        lemma_fundamental_div_mod_converse(n + k - 1, k as int, q + 1, m - 1);
    } else {
        lemma_fundamental_div_mod_converse(n + k - 1 - r, k as int, q, m + k - 1 - r);
    }
}

/// Whether `n`, the number of terms of `d` digits, is what dealing the
/// digit-lengths of the configuration round-robin over `length` terms gives:
/// `length / k` or that rounded up, for `k` digit-lengths; rounded up for
/// `max_digit`, which is dealt first, and that of `length - 1` terms for
/// `min_digit`, dealt second.
pub open spec fn balanced_count(c: crate::config::Config, d: nat, n: nat) -> bool {
    let k = c.max_digit - c.min_digit + 1;
    let l = c.length as int;
    &&& n == l / k || n == (l + k - 1) / k
    &&& d == c.max_digit ==> n == (l + k - 1) / k
    &&& k >= 2 && d == c.min_digit ==> n == (l + k - 2) / k
}

/// How many items of `s` equal `d`.
pub open spec fn occurrences(s: Seq<u32>, d: nat) -> nat
    decreases s.len(),
{
    if s.len() == 0 {
        0
    } else {
        occurrences(s.drop_last(), d) + if s.last() == d {
            1nat
        } else {
            0nat
        }
    }
}

/// How many of the numbers `m` have `d` digits.
pub open spec fn count_digit_length(m: Seq<nat>, d: nat) -> nat
    decreases m.len(),
{
    if m.len() == 0 {
        0
    } else {
        count_digit_length(m.drop_last(), d) + if digit_length(m.last()) == d {
            1nat
        } else {
            0nat
        }
    }
}

proof fn lemma_count_remove(m: Seq<nat>, k: int, d: nat)
    requires
        0 <= k < m.len(),
    ensures
        count_digit_length(m, d) == count_digit_length(m.remove(k), d) + if digit_length(m[k])
            == d {
            1nat
        } else {
            0nat
        },
    decreases m.len(),
{
    if k == m.len() - 1 {
        assert(m.remove(k) =~= m.drop_last());
    } else {
        assert(m.remove(k).drop_last() =~= m.drop_last().remove(k));
        assert(m.remove(k).last() == m.last());
        lemma_count_remove(m.drop_last(), k, d);
    }
}

/// Reordering the numbers keeps how many have each digit-length.
pub proof fn lemma_count_permutation(m1: Seq<nat>, m2: Seq<nat>, d: nat)
    requires
        m1.to_multiset() == m2.to_multiset(),
    ensures
        count_digit_length(m1, d) == count_digit_length(m2, d),
    decreases m1.len(),
{
    broadcast use vstd::multiset::group_multiset_axioms;

    if m1.len() == 0 {
        assert(m2.len() == m2.to_multiset().len());
        assert(m1.len() == m1.to_multiset().len());
        assert(m2 =~= m1);
    } else {
        let x = m1.last();
        let rest = m1.drop_last();
        assert(rest.push(x) =~= m1);
        assert(m2.to_multiset().count(x) > 0);
        assert(m2.contains(x));
        let k = choose|k: int| 0 <= k < m2.len() && m2[k] == x;
        assert(m2.remove(k).to_multiset() =~= rest.to_multiset());
        lemma_count_permutation(rest, m2.remove(k), d);
        lemma_count_remove(m2, k, d);
    }
}

} // verus!
